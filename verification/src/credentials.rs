//! The `credentials` file: the session entries this tool writes into it, the
//! expiration time read back out of it, and the removal of an entry.

use vstd::prelude::*;
use crate::config::{file_chunks, lemma_strip_breaks, split_config_file, strip_breaks, AWSProfile, ProfileView};
use crate::text::{
    chars_of, contains_seq, lemma_split_append, lemma_split_pieces, lemma_split_clean_pieces, lemma_split_nonempty, lemma_split_piece, no_match_before,
    pieces, range_eq, ranges_within, split_ranges, split_seq, string_of,
};

verus! {

/// Temporary credentials handed out for a session.
pub struct SessionCredentials {
    pub access_key_id: String,
    pub expiration: String,
    pub secret_access_key: String,
    pub session_token: String,
}

/// The mathematical value of [`SessionCredentials`].
pub struct CredentialsView {
    pub access_key_id: Seq<char>,
    pub expiration: Seq<char>,
    pub secret_access_key: Seq<char>,
    pub session_token: Seq<char>,
}

impl View for SessionCredentials {
    type V = CredentialsView;

    open spec fn view(&self) -> CredentialsView {
        CredentialsView {
            access_key_id: self.access_key_id@,
            expiration: self.expiration@,
            secret_access_key: self.secret_access_key@,
            session_token: self.session_token@,
        }
    }
}

/// The name of the session profile of `name`.
pub open spec fn session_name(name: Seq<char>) -> Seq<char> {
    name + "-session"@
}

/// `[name]`, the first line of the credentials entry called `name`.
pub open spec fn section_line(name: Seq<char>) -> Seq<char> {
    "["@ + name + "]"@
}

/// The first line of a chunk.
pub open spec fn first_line(chunk: Seq<char>) -> Seq<char> {
    split_seq(chunk, "\n"@)[0]
}

/// The credentials entry of the session of `name`, as it is appended to the
/// credentials file.
pub open spec fn credentials_entry(name: Seq<char>, c: CredentialsView) -> Seq<char> {
    section_line(session_name(name)) + "\naws_access_key_id = "@ + c.access_key_id + "\nexpiration = "@
        + c.expiration + "\naws_secret_access_key = "@ + c.secret_access_key
        + "\naws_session_token = "@ + c.session_token + "\n\n"@
}

/// The region of a new session: that of its profile, else `us-east-1`.
pub open spec fn session_region(p: ProfileView) -> Seq<char> {
    match p.region {
        Some(r) => r,
        None => "us-east-1"@,
    }
}

/// The config entry of the session of `name`, as it is appended to the
/// config file: `[profile NAME-session]` and its region.
pub open spec fn session_profile_entry(name: Seq<char>, p: ProfileView) -> Seq<char> {
    "[profile "@ + session_name(name) + "]\nregion = "@ + session_region(p) + "\n\n"@
}

/// The settings a session profile is written with.
pub open spec fn session_profile(p: ProfileView) -> ProfileView {
    ProfileView {
        source_profile: None,
        region: Some(session_region(p)),
        output: None,
        role_arn: None,
        mfa_serial: None,
    }
}

/// The chunks kept when the entry called `name` is removed, each followed by
/// a blank line.
pub open spec fn kept_chunks_text(chunks: Seq<Seq<char>>, name: Seq<char>) -> Seq<char>
    decreases chunks.len(),
{
    if chunks.len() == 0 {
        Seq::empty()
    } else {
        kept_chunks_text(chunks.drop_last(), name) + if first_line(chunks.last()) == section_line(name) {
            Seq::empty()
        } else {
            chunks.last() + "\n\n"@
        }
    }
}

/// The credentials file once the entry called `name` is removed.
pub open spec fn removed_credentials(text: Seq<char>, name: Seq<char>) -> Seq<char> {
    kept_chunks_text(file_chunks(text), name)
}

/// The value of the last `expiration` line among `lines`, `cur` if there is
/// none; `None` when such a line has no ` = `.
pub open spec fn scan_expiration(cur: Seq<char>, lines: Seq<Seq<char>>) -> Option<Seq<char>>
    decreases lines.len(),
{
    if lines.len() == 0 {
        Some(cur)
    } else {
        match scan_expiration(cur, lines.drop_last()) {
            None => None,
            Some(v) => {
                let parts = split_seq(lines.last(), " = "@);
                if parts[0] == "expiration"@ {
                    if parts.len() < 2 {
                        None
                    } else {
                        Some(parts[1])
                    }
                } else {
                    Some(v)
                }
            },
        }
    }
}

/// The expiration recorded in the chunks headed `[name]`, the last one
/// winning; empty when there is none.
pub open spec fn chunks_expiration(chunks: Seq<Seq<char>>, name: Seq<char>) -> Option<Seq<char>>
    decreases chunks.len(),
{
    if chunks.len() == 0 {
        Some(Seq::empty())
    } else {
        match chunks_expiration(chunks.drop_last(), name) {
            None => None,
            Some(v) => if first_line(chunks.last()) == section_line(name) {
                scan_expiration(v, split_seq(chunks.last(), "\n"@).skip(1))
            } else {
                Some(v)
            },
        }
    }
}

/// The expiration time of the credentials entry called `name` in the
/// credentials file `text`.
pub open spec fn expiration_time(text: Seq<char>, name: Seq<char>) -> Option<Seq<char>> {
    chunks_expiration(file_chunks(text), name)
}

// ----- executable -----

/// The text to append to the credentials file for a new session of `profile_name`.
pub fn save_credentials(profile_name: &str, credentials: &SessionCredentials) -> (r: String)
    ensures
        r@ == credentials_entry(profile_name@, credentials@),
{
    let mut out = String::new();
    out.append("[");
    out.append(profile_name);
    out.append("-session");
    out.append("]");
    out.append("\naws_access_key_id = ");
    out.append(credentials.access_key_id.as_str());
    out.append("\nexpiration = ");
    out.append(credentials.expiration.as_str());
    out.append("\naws_secret_access_key = ");
    out.append(credentials.secret_access_key.as_str());
    out.append("\naws_session_token = ");
    out.append(credentials.session_token.as_str());
    out.append("\n\n");
    assert(out@ =~= credentials_entry(profile_name@, credentials@));
    out
}

/// The text to append to the config file for a new session of the profile
/// `profile_name` with settings `profile`.
pub fn save_profile(profile_name: &str, profile: &AWSProfile) -> (r: String)
    ensures
        r@ == session_profile_entry(profile_name@, profile@),
{
    let mut out = String::new();
    out.append("[profile ");
    out.append(profile_name);
    out.append("-session");
    out.append("]\nregion = ");
    match &profile.region {
        Some(region) => out.append(region.as_str()),
        None => out.append("us-east-1"),
    }
    out.append("\n\n");
    assert(out@ =~= session_profile_entry(profile_name@, profile@));
    out
}

/// Whether `chunk` is headed by `header`.
fn chunk_headed(chunk: &str, header: &Vec<char>) -> (b: bool)
    ensures
        b == (first_line(chunk@) == header@),
{
    let s = chars_of(chunk);
    assert(s@.subrange(0, s@.len() as int) =~= s@);
    headed_range(&s, 0, s.len(), header)
}

/// Whether the chunk `s[lo..hi]` is headed by `header`.
fn headed_range(s: &Vec<char>, lo: usize, hi: usize, header: &Vec<char>) -> (b: bool)
    requires
        lo <= hi <= s@.len(),
    ensures
        b == (first_line(s@.subrange(lo as int, hi as int)) == header@),
{
    let nl = chars_of("\n");
    proof {
        reveal_strlit("\n");
    }
    let lines = split_ranges(s, lo, hi, &nl);
    let (a, b) = lines[0];
    assert(pieces(s@, lines@)[0] == s@.subrange(a as int, b as int));
    range_eq(s, a, b, header)
}

/// The characters of `[name]`.
fn section_chars(name: &str) -> (v: Vec<char>)
    ensures
        v@ == section_line(name@),
{
    let mut t = String::new();
    t.append("[");
    t.append(name);
    t.append("]");
    assert(t@ =~= section_line(name@));
    chars_of(t.as_str())
}

/// The credentials file `text` without the entries headed `[name]`; every
/// other entry is written back followed by a blank line.
pub fn remove_credentials(text: &str, name: &str) -> (r: String)
    ensures
        r@ == removed_credentials(text@, name@),
{
    let header = section_chars(name);
    let chunks = split_config_file(text);
    let ghost cs = file_chunks(text@);
    let mut out = String::new();
    assert(cs.take(0) =~= Seq::<Seq<char>>::empty());
    let mut c: usize = 0;
    while c < chunks.len()
        invariant
            chunks@.map_values(|c: String| c@) == cs,
            cs == file_chunks(text@),
            c <= cs.len(),
            header@ == section_line(name@),
            out@ == kept_chunks_text(cs.take(c as int), name@),
        decreases cs.len() - c,
    {
        let chunk = &chunks[c];
        assert(chunk@ == cs[c as int]);
        assert(cs.take(c + 1).drop_last() =~= cs.take(c as int));
        assert(cs.take(c + 1).last() == cs[c as int]);
        if !chunk_headed(chunk.as_str(), &header) {
            out.append(chunk.as_str());
            out.append("\n\n");
            assert(out@ =~= kept_chunks_text(cs.take(c as int), name@) + (cs[c as int] + "\n\n"@));
        } else {
            assert(out@ =~= kept_chunks_text(cs.take(c as int), name@) + Seq::<char>::empty());
        }
        c = c + 1;
    }
    assert(cs.take(cs.len() as int) =~= cs);
    out
}

/// Once a prefix of the lines fails, every longer prefix fails too.
proof fn lemma_scan_fails_on(cur: Seq<char>, lines: Seq<Seq<char>>, k: int, m: int)
    requires
        0 <= k <= m <= lines.len(),
        scan_expiration(cur, lines.take(k)) is None,
    ensures
        scan_expiration(cur, lines.take(m)) is None,
    decreases m - k,
{
    if m > k {
        lemma_scan_fails_on(cur, lines, k, m - 1);
        assert(lines.take(m).drop_last() =~= lines.take(m - 1));
    }
}

/// Once a prefix of the chunks fails, every longer prefix fails too.
proof fn lemma_chunks_expiration_fails_on(chunks: Seq<Seq<char>>, name: Seq<char>, k: int, m: int)
    requires
        0 <= k <= m <= chunks.len(),
        chunks_expiration(chunks.take(k), name) is None,
    ensures
        chunks_expiration(chunks.take(m), name) is None,
    decreases m - k,
{
    if m > k {
        lemma_chunks_expiration_fails_on(chunks, name, k, m - 1);
        assert(chunks.take(m).drop_last() =~= chunks.take(m - 1));
    }
}

/// Goes through the lines of `chunk` after its first one, from `cur` on.
fn scan_chunk(chunk: &str, cur: String) -> (r: Option<String>)
    ensures
        match r {
            Some(v) => scan_expiration(cur@, split_seq(chunk@, "\n"@).skip(1)) == Some(v@),
            None => scan_expiration(cur@, split_seq(chunk@, "\n"@).skip(1)) is None,
        },
{
    let s = chars_of(chunk);
    assert(s@.subrange(0, s@.len() as int) =~= s@);
    scan_range(chunk, &s, 0, s.len(), cur)
}

/// Goes through the lines of the chunk `s[lo..hi]` after its first one, from
/// `cur` on.
fn scan_range(text: &str, s: &Vec<char>, lo: usize, hi: usize, cur: String) -> (r: Option<String>)
    requires
        s@ == text@,
        lo <= hi <= s@.len(),
    ensures
        match r {
            Some(v) => scan_expiration(cur@, split_seq(s@.subrange(lo as int, hi as int), "\n"@).skip(1))
                == Some(v@),
            None => scan_expiration(cur@, split_seq(s@.subrange(lo as int, hi as int), "\n"@).skip(1)) is None,
        },
{
    let nl = chars_of("\n");
    let eq = chars_of(" = ");
    let key = chars_of("expiration");
    proof {
        reveal_strlit("\n");
        reveal_strlit(" = ");
    }
    let ghost chunk = s@.subrange(lo as int, hi as int);
    let lines = split_ranges(s, lo, hi, &nl);
    let ghost ls = split_seq(chunk, "\n"@);
    let ghost fls = ls.skip(1);
    let ghost start = cur@;
    let mut v = cur;
    assert(fls.take(0) =~= Seq::<Seq<char>>::empty());
    let mut j: usize = 1;
    while j < lines.len()
        invariant
            1 <= j <= lines@.len(),
            lines@.len() == ls.len(),
            pieces(s@, lines@) == ls,
            ranges_within(lines@, lo as int, hi as int),
            hi <= s@.len(),
            s@ == text@,
            chunk == s@.subrange(lo as int, hi as int),
            ls == split_seq(chunk, "\n"@),
            fls == ls.skip(1),
            eq@ == " = "@,
            eq@.len() == 3,
            key@ == "expiration"@,
            start == cur@,
            scan_expiration(start, fls.take(j - 1)) == Some(v@),
        decreases lines@.len() - j,
    {
        let (fa, fb) = lines[j];
        assert(ls[j as int] == s@.subrange(fa as int, fb as int));
        let parts = split_ranges(s, fa, fb, &eq);
        let ghost ps = split_seq(s@.subrange(fa as int, fb as int), " = "@);
        assert(pieces(s@, parts@) == ps);
        assert(ps.len() == parts@.len());
        assert(fls.take(j as int).drop_last() =~= fls.take(j - 1));
        assert(fls.take(j as int).last() == ls[j as int]);
        let (ka, kb) = parts[0];
        assert(ps[0] == s@.subrange(ka as int, kb as int));
        if range_eq(s, ka, kb, &key) {
            if parts.len() < 2 {
                proof {
                    assert(scan_expiration(start, fls.take(j as int)) is None);
                    lemma_scan_fails_on(start, fls, j as int, fls.len() as int);
                    assert(fls.take(fls.len() as int) =~= fls);
                }
                return None;
            }
            let (va, vb) = parts[1];
            assert(ps[1] == s@.subrange(va as int, vb as int));
            v = string_of(text, s, va, vb);
        }
        j = j + 1;
    }
    assert(fls.take(fls.len() as int) =~= fls);
    Some(v)
}

/// Whether the expiration time of the entry called `name` can be read from
/// the credentials file `text`: no `expiration` line of it lacks ` = `.
pub fn expiration_is_readable(text: &str, name: &str) -> (b: bool)
    ensures
        b == expiration_time(text@, name@) is Some,
{
    read_expiration_time(text, name).is_some()
}

/// The expiration time recorded for the entry called `name` in the
/// credentials file `text` (empty when there is none), which must be
/// readable.
pub fn get_expiration_time(text: &str, name: &str) -> (r: String)
    requires
        expiration_time(text@, name@) is Some,
    ensures
        expiration_time(text@, name@) == Some(r@),
{
    match read_expiration_time(text, name) {
        Some(v) => v,
        None => {
            assert(false);
            String::new()
        },
    }
}

/// The expiration time recorded for the entry called `name`; `None` when an
/// `expiration` line of that entry has no ` = `, where reading cannot go on.
fn read_expiration_time(text: &str, name: &str) -> (r: Option<String>)
    ensures
        match r {
            Some(v) => expiration_time(text@, name@) == Some(v@),
            None => expiration_time(text@, name@) is None,
        },
{
    let header = section_chars(name);
    let chunks = split_config_file(text);
    let ghost cs = file_chunks(text@);
    let mut v = String::new();
    assert(cs.take(0) =~= Seq::<Seq<char>>::empty());
    let mut c: usize = 0;
    while c < chunks.len()
        invariant
            chunks@.map_values(|c: String| c@) == cs,
            cs == file_chunks(text@),
            c <= cs.len(),
            header@ == section_line(name@),
            chunks_expiration(cs.take(c as int), name@) == Some(v@),
        decreases cs.len() - c,
    {
        let chunk = &chunks[c];
        assert(chunk@ == cs[c as int]);
        assert(cs.take(c + 1).drop_last() =~= cs.take(c as int));
        assert(cs.take(c + 1).last() == cs[c as int]);
        if chunk_headed(chunk.as_str(), &header) {
            match scan_chunk(chunk.as_str(), v) {
                Some(w) => {
                    v = w;
                },
                None => {
                    proof {
                        assert(chunks_expiration(cs.take(c + 1), name@) is None);
                        lemma_chunks_expiration_fails_on(cs, name@, c + 1, cs.len() as int);
                        assert(cs.take(cs.len() as int) =~= cs);
                    }
                    return None;
                },
            }
        }
        c = c + 1;
    }
    assert(cs.take(cs.len() as int) =~= cs);
    Some(v)
}

// ----- facts about the credentials file -----

/// The chunks that removing the entry called `name` keeps, in order.
pub open spec fn kept_chunks(cs: Seq<Seq<char>>, name: Seq<char>) -> Seq<Seq<char>>
    decreases cs.len(),
{
    if cs.len() == 0 {
        Seq::empty()
    } else if first_line(cs.last()) == section_line(name) {
        kept_chunks(cs.drop_last(), name)
    } else {
        kept_chunks(cs.drop_last(), name).push(cs.last())
    }
}

/// Chunks that can be followed by a blank line without splitting differently.
pub open spec fn clean_chunks(cs: Seq<Seq<char>>) -> bool {
    forall|j: int| 0 <= j < cs.len() ==> no_match_before(#[trigger] cs[j] + "\n\n"@, cs[j].len() as int, "\n\n"@)
}

/// A chunk without a blank line in it, not ending in a line break, can be
/// followed by a blank line without splitting differently.
pub proof fn lemma_clean_chunk(c: Seq<char>)
    requires
        !contains_seq(c, "\n\n"@),
        c.len() > 0 ==> c.last() != '\n',
    ensures
        no_match_before(c + "\n\n"@, c.len() as int, "\n\n"@),
{
    reveal_strlit("\n\n");
    let sep = "\n\n"@;
    let x = c + sep;
    assert forall|i: int| 0 <= i < c.len() && i + sep.len() <= x.len() implies #[trigger] x.subrange(
        i,
        i + sep.len(),
    ) != sep by {
        if x.subrange(i, i + sep.len()) == sep {
            if i + 2 <= c.len() {
                assert(c.subrange(i, i + sep.len()) =~= x.subrange(i, i + sep.len()));
            } else {
                assert(x.subrange(i, i + sep.len())[0] == x[i]);
                assert(x[i] == c[i]);
                assert(c[i] == c.last());
            }
        }
    }
}

/// The chunks of a file can each be written back with a blank line after it.
pub proof fn lemma_file_chunks_clean(text: Seq<char>)
    ensures
        clean_chunks(file_chunks(text)),
{
    reveal_strlit("\n\n");
    lemma_split_clean_pieces(text, "\n\n"@);
    lemma_split_pieces(text, "\n\n"@);
    lemma_split_nonempty(text, "\n\n"@);
    let all = split_seq(text, "\n\n"@);
    let pre = all.drop_last();
    let p = all.last();
    let tail = strip_breaks(p);
    lemma_strip_breaks(p);
    assert(p == all[all.len() - 1]);
    if contains_seq(tail, "\n\n"@) {
        let i = choose|i: int| 0 <= i && i + 2 <= tail.len() && #[trigger] tail.subrange(i, i + 2) == "\n\n"@;
        assert(p.subrange(i, i + 2) =~= tail.subrange(i, i + 2));
        assert(p.subrange(i, i + "\n\n"@.len()) == "\n\n"@);
    }
    lemma_clean_chunk(tail);
    let cs = file_chunks(text);
    assert forall|j: int| 0 <= j < cs.len() implies no_match_before(#[trigger] cs[j] + "\n\n"@, cs[j].len() as int, "\n\n"@) by {
        if j < pre.len() {
            assert(cs[j] == all[j]);
            assert(no_match_before(all[j] + "\n\n"@, all[j].len() as int, "\n\n"@));
        } else {
            assert(cs[j] == tail);
        }
    }
}

/// The kept chunks, written back with blank lines, split into those chunks.
pub proof fn lemma_kept_text_chunks(cs: Seq<Seq<char>>, name: Seq<char>)
    requires
        clean_chunks(cs),
    ensures
        split_seq(kept_chunks_text(cs, name), "\n\n"@) == kept_chunks(cs, name).push(Seq::<char>::empty()),
    decreases cs.len(),
{
    reveal_strlit("\n\n");
    let sep = "\n\n"@;
    if cs.len() == 0 {
        assert(split_seq(Seq::<char>::empty(), sep) == seq![Seq::<char>::empty()]);
        assert(kept_chunks(cs, name).push(Seq::<char>::empty()) =~= seq![Seq::<char>::empty()]);
    } else {
        let pre = cs.drop_last();
        assert forall|j: int| 0 <= j < pre.len() implies no_match_before(#[trigger] pre[j] + sep, pre[j].len() as int, sep) by {
            assert(pre[j] == cs[j]);
        }
        lemma_kept_text_chunks(pre, name);
        let x = kept_chunks_text(pre, name);
        let c = cs.last();
        assert(c == cs[cs.len() - 1]);
        if first_line(c) == section_line(name) {
            assert(kept_chunks_text(cs, name) =~= x);
        } else {
            lemma_split_piece(c, Seq::<char>::empty(), sep);
            assert(c + sep + Seq::<char>::empty() =~= c + sep);
            assert(split_seq(Seq::<char>::empty(), sep) == seq![Seq::<char>::empty()]);
            lemma_split_append(x, c + sep, sep);
            assert(kept_chunks_text(cs, name) == x + (c + sep));
            assert(kept_chunks(pre, name).push(Seq::<char>::empty()).drop_last() =~= kept_chunks(pre, name));
            assert(kept_chunks(pre, name) + (seq![c] + seq![Seq::<char>::empty()]) =~= kept_chunks(cs, name).push(
                Seq::<char>::empty(),
            ));
        }
    }
}

/// No kept chunk is headed by the removed name.
pub proof fn lemma_kept_expiration_empty(cs: Seq<Seq<char>>, name: Seq<char>)
    ensures
        chunks_expiration(kept_chunks(cs, name), name) == Some(Seq::<char>::empty()),
    decreases cs.len(),
{
    if cs.len() > 0 {
        lemma_kept_expiration_empty(cs.drop_last(), name);
        let k = kept_chunks(cs.drop_last(), name);
        if first_line(cs.last()) != section_line(name) {
            assert(k.push(cs.last()).drop_last() =~= k);
        }
    }
}

/// Removing the entries of one name changes nothing for another name.
pub proof fn lemma_kept_expiration_other(cs: Seq<Seq<char>>, name: Seq<char>, other: Seq<char>)
    requires
        section_line(other) != section_line(name),
    ensures
        chunks_expiration(kept_chunks(cs, name), other) == chunks_expiration(cs, other),
    decreases cs.len(),
{
    if cs.len() > 0 {
        lemma_kept_expiration_other(cs.drop_last(), name, other);
        let k = kept_chunks(cs.drop_last(), name);
        if first_line(cs.last()) != section_line(name) {
            assert(k.push(cs.last()).drop_last() =~= k);
        }
    }
}

/// Different names have different section lines.
pub proof fn lemma_section_line_injective(a: Seq<char>, b: Seq<char>)
    requires
        a != b,
    ensures
        section_line(a) != section_line(b),
{
    reveal_strlit("[");
    reveal_strlit("]");
    if section_line(a) == section_line(b) {
        assert(section_line(a).subrange(1, (a.len() + 1) as int) =~= a);
        assert(section_line(b).subrange(1, (b.len() + 1) as int) =~= b);
        assert("["@.len() == 1 && "]"@.len() == 1);
        assert(section_line(a).len() == a.len() + 2);
        assert(section_line(b).len() == b.len() + 2);
        assert(a =~= b);
    }
}

} // verus!
