//! The `config` file: its profiles, how the file text is read into them and
//! how they are written back out.

use vstd::prelude::*;
use crate::text::{
    chars_of, pieces, pop_seq, range_eq, ranges_within, split_ranges, split_seq, string_of,
    trim_end_range, trim_end_seq, trim_start_range, trim_start_seq,
};

verus! {

/// The settings of one profile that this tool reads and writes.
pub struct AWSProfile {
    pub source_profile: Option<String>,
    pub region: Option<String>,
    pub output: Option<String>,
    pub role_arn: Option<String>,
    pub mfa_serial: Option<String>,
}

/// The mathematical value of an [`AWSProfile`].
pub struct ProfileView {
    pub source_profile: Option<Seq<char>>,
    pub region: Option<Seq<char>>,
    pub output: Option<Seq<char>>,
    pub role_arn: Option<Seq<char>>,
    pub mfa_serial: Option<Seq<char>>,
}

pub open spec fn opt_view(o: Option<String>) -> Option<Seq<char>> {
    match o {
        Some(s) => Some(s@),
        None => None,
    }
}

impl View for AWSProfile {
    type V = ProfileView;

    open spec fn view(&self) -> ProfileView {
        ProfileView {
            source_profile: opt_view(self.source_profile),
            region: opt_view(self.region),
            output: opt_view(self.output),
            role_arn: opt_view(self.role_arn),
            mfa_serial: opt_view(self.mfa_serial),
        }
    }
}

pub open spec fn empty_profile() -> ProfileView {
    ProfileView { source_profile: None, region: None, output: None, role_arn: None, mfa_serial: None }
}

/// A copy of an optional string.
pub fn copy_opt(o: &Option<String>) -> (r: Option<String>)
    ensures
        opt_view(r) == opt_view(*o),
{
    match o {
        Some(s) => Some(s.clone()),
        None => None,
    }
}

impl AWSProfile {
    /// A profile with no settings.
    pub fn new() -> (p: AWSProfile)
        ensures
            p@ == empty_profile(),
    {
        AWSProfile { source_profile: None, region: None, output: None, role_arn: None, mfa_serial: None }
    }

    /// A copy of this profile.
    pub fn copy(&self) -> (p: AWSProfile)
        ensures
            p@ == self@,
    {
        AWSProfile {
            source_profile: copy_opt(&self.source_profile),
            region: copy_opt(&self.region),
            output: copy_opt(&self.output),
            role_arn: copy_opt(&self.role_arn),
            mfa_serial: copy_opt(&self.mfa_serial),
        }
    }
}

/// A named profile, as the config file holds it.
pub type EntryView = (Seq<char>, ProfileView);

/// No two entries carry the same name.
pub open spec fn distinct_names(es: Seq<EntryView>) -> bool {
    forall|i: int, j: int| 0 <= i < es.len() && 0 <= j < es.len() && i != j ==> #[trigger] es[i].0 != #[trigger] es[j].0
}

pub open spec fn has_name(es: Seq<EntryView>, name: Seq<char>) -> bool {
    exists|i: int| 0 <= i < es.len() && #[trigger] es[i].0 == name
}

/// The position of the entry called `name`.
pub open spec fn name_index(es: Seq<EntryView>, name: Seq<char>) -> int {
    choose|i: int| 0 <= i < es.len() && #[trigger] es[i].0 == name
}

/// The profile called `name`, if there is one.
pub open spec fn lookup(es: Seq<EntryView>, name: Seq<char>) -> Option<ProfileView> {
    if has_name(es, name) {
        Some(es[name_index(es, name)].1)
    } else {
        None
    }
}

/// Map insertion: a profile of that name is replaced in place, a new one goes last.
pub open spec fn insert_entry(es: Seq<EntryView>, name: Seq<char>, p: ProfileView) -> Seq<EntryView> {
    if has_name(es, name) {
        es.update(name_index(es, name), (name, p))
    } else {
        es.push((name, p))
    }
}

/// Map removal: the entry called `name` leaves, the others keep their order.
pub open spec fn remove_entry(es: Seq<EntryView>, name: Seq<char>) -> Seq<EntryView> {
    if has_name(es, name) {
        es.remove(name_index(es, name))
    } else {
        es
    }
}

// ----- reading the config file -----

/// The profile name of a chunk's first line: `[profile NAME]` gives `NAME`
/// (the second word without its last character), a one-word line such as
/// `[default]` gives itself, trimmed.
pub open spec fn header_name(line: Seq<char>) -> Seq<char> {
    let words = split_seq(line, " "@);
    if words.len() > 1 {
        trim_end_seq(pop_seq(words[1]))
    } else {
        trim_start_seq(trim_end_seq(words[0]))
    }
}

/// `p` with the setting called `key` set to `value`; other keys are ignored.
pub open spec fn apply_field(p: ProfileView, key: Seq<char>, value: Seq<char>) -> ProfileView {
    if key == "mfa_serial"@ {
        ProfileView { mfa_serial: Some(value), ..p }
    } else if key == "output"@ {
        ProfileView { output: Some(value), ..p }
    } else if key == "region"@ {
        ProfileView { region: Some(value), ..p }
    } else if key == "role_arn"@ {
        ProfileView { role_arn: Some(value), ..p }
    } else if key == "source_profile"@ {
        ProfileView { source_profile: Some(value), ..p }
    } else {
        p
    }
}

/// The settings of `key = value` lines, later lines overriding earlier ones;
/// `None` when a line has no ` = `.
pub open spec fn parse_fields(lines: Seq<Seq<char>>) -> Option<ProfileView>
    decreases lines.len(),
{
    if lines.len() == 0 {
        Some(empty_profile())
    } else {
        match parse_fields(lines.drop_last()) {
            None => None,
            Some(p) => {
                let parts = split_seq(lines.last(), " = "@);
                if parts.len() < 2 {
                    None
                } else {
                    Some(apply_field(p, parts[0], parts[1]))
                }
            },
        }
    }
}

/// The name and settings that one chunk of the file describes.
pub open spec fn parse_chunk(chunk: Seq<char>) -> Option<EntryView> {
    let lines = split_seq(chunk, "\n"@);
    match parse_fields(lines.skip(1)) {
        None => None,
        Some(p) => Some((header_name(lines[0]), p)),
    }
}

/// The profiles of a list of chunks; a chunk with an empty name is passed over.
pub open spec fn parse_chunks(chunks: Seq<Seq<char>>) -> Option<Seq<EntryView>>
    decreases chunks.len(),
{
    if chunks.len() == 0 {
        Some(Seq::empty())
    } else {
        match parse_chunks(chunks.drop_last()) {
            None => None,
            Some(es) => match parse_chunk(chunks.last()) {
                None => None,
                Some(e) => Some(
                    if e.0.len() == 0 {
                        es
                    } else {
                        insert_entry(es, e.0, e.1)
                    },
                ),
            },
        }
    }
}

/// `s` without the line breaks it ends with.
pub open spec fn strip_breaks(s: Seq<char>) -> Seq<char>
    decreases s.len(),
{
    if s.len() > 0 && s.last() == '\n' {
        strip_breaks(s.drop_last())
    } else {
        s
    }
}

/// Dropping the final line breaks leaves a prefix that does not end in one.
pub proof fn lemma_strip_breaks(s: Seq<char>)
    ensures
        strip_breaks(s).len() <= s.len(),
        strip_breaks(s) == s.take(strip_breaks(s).len() as int),
        strip_breaks(s).len() > 0 ==> strip_breaks(s).last() != '\n',
    decreases s.len(),
{
    if s.len() > 0 && s.last() == '\n' {
        lemma_strip_breaks(s.drop_last());
        let t = strip_breaks(s.drop_last());
        assert(s.drop_last().take(t.len() as int) =~= s.take(t.len() as int));
    } else {
        assert(s.take(s.len() as int) =~= s);
    }
}

/// The chunks of a file: the pieces between blank-line separators. The last
/// piece, after the final separator, is a chunk too once the line breaks it
/// ends with are dropped, unless nothing is left of it; so the last section
/// of a file needs no blank line after it.
pub open spec fn file_chunks(text: Seq<char>) -> Seq<Seq<char>> {
    let ps = split_seq(text, "\n\n"@);
    let tail = strip_breaks(ps.last());
    if tail.len() == 0 {
        ps.drop_last()
    } else {
        ps.drop_last().push(tail)
    }
}

/// The profiles that the config file `text` describes; `None` when a
/// settings line has no ` = `.
pub open spec fn parse_config(text: Seq<char>) -> Option<Seq<EntryView>> {
    parse_chunks(file_chunks(text))
}

// ----- writing the config file -----

pub open spec fn header_text(name: Seq<char>) -> Seq<char> {
    if name == "[default]"@ {
        name
    } else {
        "[profile "@ + name + "]"@
    }
}

pub open spec fn field_text(key: Seq<char>, v: Option<Seq<char>>) -> Seq<char> {
    match v {
        Some(v) => "\n"@ + key + " = "@ + v,
        None => Seq::empty(),
    }
}

/// The lines of one profile, without the blank line that ends it.
pub open spec fn profile_chunk(name: Seq<char>, p: ProfileView) -> Seq<char> {
    header_text(name) + field_text("source_profile"@, p.source_profile) + field_text(
        "region"@,
        p.region,
    ) + field_text("output"@, p.output) + field_text("role_arn"@, p.role_arn) + field_text(
        "mfa_serial"@,
        p.mfa_serial,
    )
}

/// One profile as the config file holds it.
pub open spec fn profile_text(name: Seq<char>, p: ProfileView) -> Seq<char> {
    profile_chunk(name, p) + "\n\n"@
}

/// The config file that holds the profiles `es`, in order.
pub open spec fn config_text(es: Seq<EntryView>) -> Seq<char>
    decreases es.len(),
{
    if es.len() == 0 {
        Seq::empty()
    } else {
        config_text(es.drop_last()) + profile_text(es.last().0, es.last().1)
    }
}


// ----- the profiles of a config file -----

/// A named profile.
pub struct ProfileEntry {
    pub name: String,
    pub profile: AWSProfile,
}

/// The profiles of a config file, in file order, each name at most once.
pub struct AWSConfig {
    entries: Vec<ProfileEntry>,
}

impl View for AWSConfig {
    type V = Seq<EntryView>;

    closed spec fn view(&self) -> Seq<EntryView> {
        self.entries@.map_values(|e: ProfileEntry| (e.name@, e.profile@))
    }
}

impl AWSConfig {
    #[verifier::type_invariant]
    closed spec fn names_are_distinct(self) -> bool {
        distinct_names(self@)
    }

    /// A config with no profiles.
    pub fn new() -> (c: AWSConfig)
        ensures
            c@ == Seq::<EntryView>::empty(),
    {
        let c = AWSConfig { entries: Vec::new() };
        assert(c@ =~= Seq::<EntryView>::empty());
        c
    }

    /// The number of profiles.
    pub fn len(&self) -> (n: usize)
        ensures
            n == self@.len(),
            distinct_names(self@),
    {
        proof {
            use_type_invariant(self);
        }
        self.entries.len()
    }

    /// The name of the profile at position `i`.
    pub fn name_at(&self, i: usize) -> (r: &String)
        requires
            i < self@.len(),
        ensures
            r@ == self@[i as int].0,
    {
        &self.entries[i].name
    }

    /// The settings of the profile at position `i`.
    pub fn profile_at(&self, i: usize) -> (r: &AWSProfile)
        requires
            i < self@.len(),
        ensures
            r@ == self@[i as int].1,
    {
        &self.entries[i].profile
    }

    /// The position of the profile called `name`.
    fn find(&self, name: &str) -> (r: Option<usize>)
        ensures
            match r {
                Some(i) => i < self@.len() && self@[i as int].0 == name@ && i == name_index(self@, name@),
                None => !has_name(self@, name@),
            },
    {
        proof {
            use_type_invariant(self);
        }
        let target = name.to_owned();
        let mut i: usize = 0;
        while i < self.entries.len()
            invariant
                i <= self@.len(),
                self@.len() == self.entries@.len(),
                target@ == name@,
                distinct_names(self@),
                forall|j: int| 0 <= j < i ==> #[trigger] self@[j].0 != name@,
            decreases self@.len() - i,
        {
            if self.entries[i].name == target {
                proof {
                    assert(self@[i as int].0 == name@);
                    let k = name_index(self@, name@);
                    assert(has_name(self@, name@));
                    assert(self@[k].0 == name@);
                }
                return Some(i);
            }
            i = i + 1;
        }
        None
    }

    /// Whether a profile called `name` exists.
    pub fn contains_profile(&self, name: &str) -> (b: bool)
        ensures
            b == has_name(self@, name@),
    {
        self.find(name).is_some()
    }

    /// The settings of the profile called `name`, which must exist.
    pub fn get_profile(&self, name: &str) -> (p: &AWSProfile)
        requires
            has_name(self@, name@),
        ensures
            lookup(self@, name@) == Some(p@),
    {
        match self.find(name) {
            Some(i) => &self.entries[i].profile,
            None => {
                assert(false);
                &self.entries[0].profile
            },
        }
    }

    /// Adds the profile `name`, or replaces its settings if it exists.
    pub fn insert(&mut self, name: String, profile: AWSProfile)
        ensures
            final(self)@ == insert_entry(old(self)@, name@, profile@),
    {
        proof {
            use_type_invariant(&*self);
        }
        match self.find(name.as_str()) {
            Some(i) => {
                let ghost before = self@;
                let mut entries = Vec::new();
                std::mem::swap(&mut entries, &mut self.entries);
                entries.set(i, ProfileEntry { name, profile });
                proof {
                    assert(entries@.map_values(|e: ProfileEntry| (e.name@, e.profile@)) =~= before.update(
                        i as int,
                        (name@, profile@),
                    ));
                    assert forall|a: int, b: int|
                        0 <= a < before.len() && 0 <= b < before.len() && a != b implies #[trigger] before.update(
                        i as int,
                        (name@, profile@),
                    )[a].0 != #[trigger] before.update(i as int, (name@, profile@))[b].0 by {
                        if a != i && b != i {
                            assert(before[a].0 != before[b].0);
                        } else if a == i {
                            assert(before[b].0 != before[i as int].0);
                        } else {
                            assert(before[a].0 != before[i as int].0);
                        }
                    }
                }
                self.entries = entries;
            },
            None => {
                let ghost before = self@;
                let mut entries = Vec::new();
                std::mem::swap(&mut entries, &mut self.entries);
                entries.push(ProfileEntry { name, profile });
                proof {
                    assert(entries@.map_values(|e: ProfileEntry| (e.name@, e.profile@)) =~= before.push(
                        (name@, profile@),
                    ));
                    assert forall|a: int, b: int|
                        0 <= a < before.len() + 1 && 0 <= b < before.len() + 1 && a != b implies #[trigger] before.push(
                        (name@, profile@),
                    )[a].0 != #[trigger] before.push((name@, profile@))[b].0 by {
                        if a < before.len() && b < before.len() {
                            assert(before[a].0 != before[b].0);
                        } else if a < before.len() {
                            assert(before[a].0 != name@);
                        } else {
                            assert(before[b].0 != name@);
                        }
                    }
                }
                self.entries = entries;
            },
        }
    }

    /// Removes the profile called `name`, if there is one.
    pub fn remove(&mut self, name: &str)
        ensures
            final(self)@ == remove_entry(old(self)@, name@),
            !has_name(final(self)@, name@),
    {
        proof {
            use_type_invariant(&*self);
        }
        match self.find(name) {
            Some(i) => {
                let ghost before = self@;
                let mut entries = Vec::new();
                std::mem::swap(&mut entries, &mut self.entries);
                entries.remove(i);
                proof {
                    let after = before.remove(i as int);
                    assert(entries@.map_values(|e: ProfileEntry| (e.name@, e.profile@)) =~= after);
                    assert forall|a: int, b: int|
                        0 <= a < after.len() && 0 <= b < after.len() && a != b implies #[trigger] after[a].0
                        != #[trigger] after[b].0 by {
                        let a2 = if a < i { a } else { a + 1 };
                        let b2 = if b < i { b } else { b + 1 };
                        assert(after[a] == before[a2]);
                        assert(after[b] == before[b2]);
                    }
                    if has_name(after, name@) {
                        let k = choose|k: int| 0 <= k < after.len() && #[trigger] after[k].0 == name@;
                        let k2 = if k < i { k } else { k + 1 };
                        assert(after[k] == before[k2]);
                        assert(before[i as int].0 == name@);
                    }
                }
                self.entries = entries;
            },
            None => {},
        }
    }
}


// ----- reading, executable -----

/// Once a prefix of the chunks fails to parse, every longer prefix fails too.
pub proof fn lemma_parse_chunks_fails_on(chunks: Seq<Seq<char>>, k: int, m: int)
    requires
        0 <= k <= m <= chunks.len(),
        parse_chunks(chunks.take(k)) is None,
    ensures
        parse_chunks(chunks.take(m)) is None,
    decreases m - k,
{
    if m > k {
        lemma_parse_chunks_fails_on(chunks, k, m - 1);
        assert(chunks.take(m).drop_last() =~= chunks.take(m - 1));
    }
}

/// Once a prefix of the lines fails to parse, every longer prefix fails too.
pub proof fn lemma_parse_fields_fails_on(lines: Seq<Seq<char>>, k: int, m: int)
    requires
        0 <= k <= m <= lines.len(),
        parse_fields(lines.take(k)) is None,
    ensures
        parse_fields(lines.take(m)) is None,
    decreases m - k,
{
    if m > k {
        lemma_parse_fields_fails_on(lines, k, m - 1);
        assert(lines.take(m).drop_last() =~= lines.take(m - 1));
    }
}

/// The range of the profile name within the first line `s[lo..hi]` of a chunk.
fn header_range(s: &Vec<char>, lo: usize, hi: usize) -> (r: (usize, usize))
    requires
        lo <= hi <= s@.len(),
    ensures
        r.0 <= r.1 <= s@.len(),
        s@.subrange(r.0 as int, r.1 as int) == header_name(s@.subrange(lo as int, hi as int)),
{
    let sp = chars_of(" ");
    proof {
        reveal_strlit(" ");
    }
    let words = split_ranges(s, lo, hi, &sp);
    let ghost ws = split_seq(s@.subrange(lo as int, hi as int), " "@);
    assert(pieces(s@, words@) == ws);
    assert(ws.len() == words@.len());
    if words.len() > 1 {
        let (wa, wb) = words[1];
        assert(ws[1] == s@.subrange(wa as int, wb as int));
        let e = if wb > wa {
            wb - 1
        } else {
            wb
        };
        assert(pop_seq(ws[1]) =~= s@.subrange(wa as int, e as int));
        let e2 = trim_end_range(s, wa, e);
        (wa, e2)
    } else {
        let (wa, wb) = words[0];
        assert(ws[0] == s@.subrange(wa as int, wb as int));
        let e = trim_end_range(s, wa, wb);
        let b = trim_start_range(s, wa, e);
        (b, e)
    }
}

/// The name and settings that the chunk `chunk` describes.
fn read_chunk(chunk: &str) -> (r: Option<(String, AWSProfile)>)
    ensures
        match r {
            Some(e) => parse_chunk(chunk@) == Some((e.0@, e.1@)),
            None => parse_chunk(chunk@) is None,
        },
{
    let s = chars_of(chunk);
    assert(s@.subrange(0, s@.len() as int) =~= s@);
    read_chunk_range(chunk, &s, 0, s.len())
}

/// The name and settings of the chunk `s[lo..hi]` of `text`, whose
/// characters `s` holds.
fn read_chunk_range(text: &str, s: &Vec<char>, lo: usize, hi: usize) -> (r: Option<(String, AWSProfile)>)
    requires
        s@ == text@,
        lo <= hi <= s@.len(),
    ensures
        match r {
            Some(e) => parse_chunk(s@.subrange(lo as int, hi as int)) == Some((e.0@, e.1@)),
            None => parse_chunk(s@.subrange(lo as int, hi as int)) is None,
        },
{
    let nl = chars_of("\n");
    let eq = chars_of(" = ");
    let k_mfa = chars_of("mfa_serial");
    let k_output = chars_of("output");
    let k_region = chars_of("region");
    let k_role = chars_of("role_arn");
    let k_source = chars_of("source_profile");
    proof {
        reveal_strlit("\n");
        reveal_strlit(" = ");
    }
    let ghost chunk = s@.subrange(lo as int, hi as int);
    let lines = split_ranges(s, lo, hi, &nl);
    let ghost ls = split_seq(chunk, "\n"@);
    assert(pieces(s@, lines@) == ls);
    let ghost fls = ls.skip(1);
    let (la, lb) = lines[0];
    let (na, nb) = header_range(s, la, lb);
    assert(ls[0] == s@.subrange(la as int, lb as int));
    let mut profile = AWSProfile::new();
    assert(fls.take(0) =~= Seq::<Seq<char>>::empty());
    let mut j: usize = 1;
    while j < lines.len()
        invariant
            1 <= j <= lines@.len(),
            lines@.len() == ls.len(),
            pieces(s@, lines@) == ls,
            ranges_within(lines@, lo as int, hi as int),
            hi <= s@.len(),
            s@ == text@,
            fls == ls.skip(1),
            chunk == s@.subrange(lo as int, hi as int),
            ls == split_seq(chunk, "\n"@),
            eq@ == " = "@,
            eq@.len() == 3,
            k_mfa@ == "mfa_serial"@,
            k_output@ == "output"@,
            k_region@ == "region"@,
            k_role@ == "role_arn"@,
            k_source@ == "source_profile"@,
            parse_fields(fls.take(j - 1)) == Some(profile@),
        decreases lines@.len() - j,
    {
        let (fa, fb) = lines[j];
        assert(ls[j as int] == s@.subrange(fa as int, fb as int));
        let parts = split_ranges(s, fa, fb, &eq);
        let ghost ps = split_seq(s@.subrange(fa as int, fb as int), " = "@);
        assert(pieces(s@, parts@) == ps);
        assert(fls.take(j as int).drop_last() =~= fls.take(j - 1));
        assert(fls.take(j as int).last() == ls[j as int]);
        if parts.len() < 2 {
            proof {
                assert(ps.len() == parts@.len());
                assert(parse_fields(fls.take(j as int)) is None);
                lemma_parse_fields_fails_on(fls, j as int, fls.len() as int);
                assert(fls.take(fls.len() as int) =~= fls);
            }
            return None;
        }
        let (ka, kb) = parts[0];
        let (va, vb) = parts[1];
        assert(ps[0] == s@.subrange(ka as int, kb as int));
        assert(ps[1] == s@.subrange(va as int, vb as int));
        let value = string_of(text, s, va, vb);
        if range_eq(s, ka, kb, &k_mfa) {
            profile.mfa_serial = Some(value);
        } else if range_eq(s, ka, kb, &k_output) {
            profile.output = Some(value);
        } else if range_eq(s, ka, kb, &k_region) {
            profile.region = Some(value);
        } else if range_eq(s, ka, kb, &k_role) {
            profile.role_arn = Some(value);
        } else if range_eq(s, ka, kb, &k_source) {
            profile.source_profile = Some(value);
        }
        j = j + 1;
    }
    assert(fls.take(fls.len() as int) =~= fls);
    let name = string_of(text, s, na, nb);
    Some((name, profile))
}

/// The chunks of a config or credentials file: the text split on blank
/// lines, the piece after the last blank line left out.
pub fn split_config_file(aws_config: &str) -> (r: Vec<String>)
    ensures
        r@.map_values(|c: String| c@) == file_chunks(aws_config@),
{
    let s = chars_of(aws_config);
    let nn = chars_of("\n\n");
    proof {
        reveal_strlit("\n\n");
    }
    let chunks = split_ranges(&s, 0, s.len(), &nn);
    let ghost all = split_seq(s@.subrange(0, s@.len() as int), "\n\n"@);
    assert(s@.subrange(0, s@.len() as int) =~= s@);
    let ghost cs = all.drop_last();
    let n = chunks.len() - 1;
    let mut out: Vec<String> = Vec::new();
    let mut c: usize = 0;
    while c < n
        invariant
            n == chunks@.len() - 1,
            n == cs.len(),
            c <= n,
            pieces(s@, chunks@) == all,
            all == split_seq(s@, "\n\n"@),
            cs == all.drop_last(),
            ranges_within(chunks@, 0, s@.len() as int),
            s@ == aws_config@,
            out@.map_values(|c: String| c@) == cs.take(c as int),
        decreases n - c,
    {
        let (a, b) = chunks[c];
        assert(all[c as int] == s@.subrange(a as int, b as int));
        let ghost before = out@.map_values(|c: String| c@);
        out.push(string_of(aws_config, &s, a, b));
        assert(out@.map_values(|c: String| c@) =~= before.push(cs[c as int]));
        assert(cs.take(c + 1) =~= cs.take(c as int).push(cs[c as int]));
        c = c + 1;
    }
    assert(chunks@.len() == all.len());
    let (a, b) = chunks[n];
    assert(all[n as int] == s@.subrange(a as int, b as int));
    let mut e = b;
    while e > a && s[e - 1] == '\n'
        invariant
            a <= e <= b <= s@.len(),
            strip_breaks(s@.subrange(a as int, e as int)) == strip_breaks(s@.subrange(a as int, b as int)),
        decreases e,
    {
        assert(s@.subrange(a as int, e as int).drop_last() =~= s@.subrange(a as int, e - 1));
        e = e - 1;
    }
    assert(strip_breaks(s@.subrange(a as int, e as int)) == s@.subrange(a as int, e as int));
    assert(out@.map_values(|c: String| c@) == all.drop_last()) by {
        assert(cs.take(n as int) =~= all.drop_last());
    }
    if e > a {
        let ghost before = out@.map_values(|c: String| c@);
        out.push(string_of(aws_config, &s, a, e));
        assert(out@.map_values(|c: String| c@) =~= before.push(s@.subrange(a as int, e as int)));
    }
    out
}

/// Whether the config file `text` can be read: no settings line of a
/// profile lacks ` = `.
pub fn config_is_readable(text: &str) -> (b: bool)
    ensures
        b == parse_config(text@) is Some,
{
    read_config(text).is_some()
}

/// Reads the profiles of the config file `text`, which must be readable.
pub fn load_config(text: &str) -> (c: AWSConfig)
    requires
        parse_config(text@) is Some,
    ensures
        parse_config(text@) == Some(c@),
{
    match read_config(text) {
        Some(c) => c,
        None => {
            assert(false);
            AWSConfig::new()
        },
    }
}

/// The profiles of the config file `text`; `None` when a settings line of
/// some profile has no ` = `, where reading cannot go on.
fn read_config(text: &str) -> (r: Option<AWSConfig>)
    ensures
        match r {
            Some(c) => parse_config(text@) == Some(c@),
            None => parse_config(text@) is None,
        },
{
    let chunks = split_config_file(text);
    let ghost cs = file_chunks(text@);
    let mut cfg = AWSConfig::new();
    assert(cs.take(0) =~= Seq::<Seq<char>>::empty());
    let mut c: usize = 0;
    while c < chunks.len()
        invariant
            chunks@.map_values(|c: String| c@) == cs,
            cs == file_chunks(text@),
            c <= cs.len(),
            parse_chunks(cs.take(c as int)) == Some(cfg@),
        decreases cs.len() - c,
    {
        assert(chunks@[c as int]@ == cs[c as int]);
        assert(cs.take(c + 1).drop_last() =~= cs.take(c as int));
        assert(cs.take(c + 1).last() == cs[c as int]);
        match read_chunk(chunks[c].as_str()) {
            None => {
                proof {
                    assert(parse_chunks(cs.take(c + 1)) is None);
                    lemma_parse_chunks_fails_on(cs, c + 1, cs.len() as int);
                    assert(cs.take(cs.len() as int) =~= cs);
                }
                return None;
            },
            Some((name, profile)) => {
                if name.as_str().unicode_len() != 0 {
                    cfg.insert(name, profile);
                }
            },
        }
        c = c + 1;
    }
    assert(cs.take(cs.len() as int) =~= cs);
    Some(cfg)
}

// ----- writing, executable -----

/// Appends the line of the setting `key`, if it is set.
fn append_field(out: &mut String, key: &str, v: &Option<String>)
    ensures
        final(out)@ == old(out)@ + field_text(key@, opt_view(*v)),
{
    match v {
        Some(v) => {
            out.append("\n");
            out.append(key);
            out.append(" = ");
            out.append(v.as_str());
            assert(final(out)@ =~= old(out)@ + ("\n"@ + key@ + " = "@ + v@));
        },
        None => {
            assert(out@ =~= old(out)@ + Seq::<char>::empty());
        },
    }
}

/// Appends the profile `name` with settings `p`, as the config file holds it.
pub fn append_profile(out: &mut String, name: &String, p: &AWSProfile)
    ensures
        final(out)@ == old(out)@ + profile_text(name@, p@),
{
    let ghost start = out@;
    if *name == "[default]".to_owned() {
        out.append(name.as_str());
    } else {
        out.append("[profile ");
        out.append(name.as_str());
        out.append("]");
        assert(out@ =~= start + ("[profile "@ + name@ + "]"@));
    }
    assert(out@ == start + header_text(name@));
    let ghost acc = header_text(name@);
    append_field(out, "source_profile", &p.source_profile);
    proof {
        let f = field_text("source_profile"@, p@.source_profile);
        assert(out@ =~= start + (acc + f));
        acc = acc + f;
    }
    append_field(out, "region", &p.region);
    proof {
        let f = field_text("region"@, p@.region);
        assert(out@ =~= start + (acc + f));
        acc = acc + f;
    }
    append_field(out, "output", &p.output);
    proof {
        let f = field_text("output"@, p@.output);
        assert(out@ =~= start + (acc + f));
        acc = acc + f;
    }
    append_field(out, "role_arn", &p.role_arn);
    proof {
        let f = field_text("role_arn"@, p@.role_arn);
        assert(out@ =~= start + (acc + f));
        acc = acc + f;
    }
    append_field(out, "mfa_serial", &p.mfa_serial);
    proof {
        let f = field_text("mfa_serial"@, p@.mfa_serial);
        assert(out@ =~= start + (acc + f));
        acc = acc + f;
    }
    assert(acc == profile_chunk(name@, p@));
    out.append("\n\n");
    assert(out@ =~= start + (acc + "\n\n"@));
}

impl AWSConfig {
    /// The text of the config file that holds these profiles, in order.
    pub fn save(&self) -> (r: String)
        ensures
            r@ == config_text(self@),
    {
        let mut out = String::new();
        let mut i: usize = 0;
        assert(self@.take(0) =~= Seq::<EntryView>::empty());
        while i < self.entries.len()
            invariant
                i <= self@.len(),
                self@.len() == self.entries@.len(),
                out@ == config_text(self@.take(i as int)),
            decreases self@.len() - i,
        {
            append_profile(&mut out, &self.entries[i].name, &self.entries[i].profile);
            assert(self@.take(i + 1).drop_last() =~= self@.take(i as int));
            i = i + 1;
        }
        assert(self@.take(i as int) =~= self@);
        out
    }
}

} // verus!
