//! Why a config file written by [`AWSConfig::save`](crate::config::AWSConfig::save)
//! reads back as the same profiles: the pieces that splitting finds in the
//! written text are exactly the lines and chunks that were written.

use vstd::prelude::*;
use crate::config::{
    apply_field, config_text, distinct_names, empty_profile, field_text, has_name, header_name,
    header_text, insert_entry, parse_chunk, parse_chunks, parse_config, parse_fields, profile_chunk,
    profile_text, file_chunks, EntryView, ProfileView,
};
use crate::text::{
    contains_seq, is_ws, join_front, lacks_char, lemma_no_match_lacking, lemma_split_append,
    lemma_split_lacking, lemma_split_nonempty, lemma_split_piece, lemma_split_prefix,
    lemma_split_sep_first, lemma_split_whole, no_match_before, pop_seq, split_seq, trim_end_seq,
    trim_start_seq, lemma_split_pieces, lemma_split_lacks, lemma_lacks_from_contains, lemma_trim_end,
    lemma_trim_start,
};

verus! {

/// A profile name that the config file can hold: not empty, without spaces
/// or line breaks, not ending in whitespace.
pub open spec fn valid_name(n: Seq<char>) -> bool {
    &&& n.len() > 0
    &&& lacks_char(n, ' ')
    &&& lacks_char(n, '\n')
    &&& !is_ws(n.last())
}

/// A setting that the config file can hold: without line breaks and
/// without ` = `.
pub open spec fn valid_value(v: Seq<char>) -> bool {
    lacks_char(v, '\n') && !contains_seq(v, " = "@)
}

pub open spec fn valid_opt(o: Option<Seq<char>>) -> bool {
    match o {
        Some(v) => valid_value(v),
        None => true,
    }
}

pub open spec fn valid_profile(p: ProfileView) -> bool {
    &&& valid_opt(p.source_profile)
    &&& valid_opt(p.region)
    &&& valid_opt(p.output)
    &&& valid_opt(p.role_arn)
    &&& valid_opt(p.mfa_serial)
}

/// Profiles that the config file can hold and give back: distinct valid
/// names and valid settings.
pub open spec fn writable(es: Seq<EntryView>) -> bool {
    &&& distinct_names(es)
    &&& forall|i: int| 0 <= i < es.len() ==> valid_name(#[trigger] es[i].0) && valid_profile(es[i].1)
}

/// The lines of a list, each after a line break.
pub open spec fn lines_text(ls: Seq<Seq<char>>) -> Seq<char>
    decreases ls.len(),
{
    if ls.len() == 0 {
        Seq::empty()
    } else {
        "\n"@ + ls[0] + lines_text(ls.skip(1))
    }
}

pub open spec fn opt_line(key: Seq<char>, v: Option<Seq<char>>) -> Seq<Seq<char>> {
    match v {
        Some(v) => seq![key + " = "@ + v],
        None => Seq::empty(),
    }
}

/// The settings lines of a profile, in the order they are written.
pub open spec fn field_lines(p: ProfileView) -> Seq<Seq<char>> {
    opt_line("source_profile"@, p.source_profile) + opt_line("region"@, p.region) + opt_line(
        "output"@,
        p.output,
    ) + opt_line("role_arn"@, p.role_arn) + opt_line("mfa_serial"@, p.mfa_serial)
}

/// Every line is free of line breaks and not empty.
pub open spec fn plain_lines(ls: Seq<Seq<char>>) -> bool {
    forall|j: int| 0 <= j < ls.len() ==> lacks_char(#[trigger] ls[j], '\n') && ls[j].len() > 0
}

/// Every line break is followed by a character that is not a line break.
pub open spec fn lone_breaks(x: Seq<char>) -> bool {
    forall|i: int| 0 <= i < x.len() && #[trigger] x[i] == '\n' ==> i + 1 < x.len() && x[i + 1] != '\n'
}

pub proof fn lemma_lines_text_append(a: Seq<Seq<char>>, b: Seq<Seq<char>>)
    ensures
        lines_text(a + b) == lines_text(a) + lines_text(b),
    decreases a.len(),
{
    if a.len() == 0 {
        assert(a + b =~= b);
        assert(lines_text(a) + lines_text(b) =~= lines_text(b));
    } else {
        assert((a + b).skip(1) =~= a.skip(1) + b);
        lemma_lines_text_append(a.skip(1), b);
        assert((a + b)[0] == a[0]);
        assert(lines_text(a + b) =~= lines_text(a) + lines_text(b));
    }
}

pub proof fn lemma_field_text(key: Seq<char>, v: Option<Seq<char>>)
    ensures
        field_text(key, v) == lines_text(opt_line(key, v)),
{
    match v {
        Some(x) => {
            let l = key + " = "@ + x;
            assert(seq![l].skip(1) =~= Seq::<Seq<char>>::empty());
            assert(lines_text(seq![l].skip(1)) == Seq::<char>::empty());
            assert(seq![l][0] == l);
            assert(lines_text(seq![l]) =~= "\n"@ + l);
            assert(field_text(key, v) =~= "\n"@ + l);
        },
        None => {},
    }
}

/// The lines of a profile's chunk after its first.
pub proof fn lemma_chunk_lines(name: Seq<char>, p: ProfileView)
    ensures
        profile_chunk(name, p) == header_text(name) + lines_text(field_lines(p)),
{
    let l1 = opt_line("source_profile"@, p.source_profile);
    let l2 = opt_line("region"@, p.region);
    let l3 = opt_line("output"@, p.output);
    let l4 = opt_line("role_arn"@, p.role_arn);
    let l5 = opt_line("mfa_serial"@, p.mfa_serial);
    lemma_field_text("source_profile"@, p.source_profile);
    lemma_field_text("region"@, p.region);
    lemma_field_text("output"@, p.output);
    lemma_field_text("role_arn"@, p.role_arn);
    lemma_field_text("mfa_serial"@, p.mfa_serial);
    lemma_lines_text_append(l1, l2);
    lemma_lines_text_append(l1 + l2, l3);
    lemma_lines_text_append(l1 + l2 + l3, l4);
    lemma_lines_text_append(l1 + l2 + l3 + l4, l5);
    assert(profile_chunk(name, p) =~= header_text(name) + lines_text(field_lines(p)));
}

/// Lines joined by line breaks split back into those lines.
pub proof fn lemma_lines_split(ls: Seq<Seq<char>>)
    requires
        forall|j: int| 0 <= j < ls.len() ==> lacks_char(#[trigger] ls[j], '\n'),
    ensures
        split_seq(lines_text(ls), "\n"@) == seq![Seq::<char>::empty()] + ls,
    decreases ls.len(),
{
    reveal_strlit("\n");
    let nl = "\n"@;
    if ls.len() == 0 {
        assert(split_seq(Seq::<char>::empty(), nl) == seq![Seq::<char>::empty()]);
        assert(seq![Seq::<char>::empty()] + ls =~= seq![Seq::<char>::empty()]);
    } else {
        let l0 = ls[0];
        let r = lines_text(ls.skip(1));
        lemma_lines_split(ls.skip(1));
        assert(lines_text(ls) =~= nl + (l0 + r));
        lemma_split_sep_first(l0 + r, nl);
        assert(lacks_char(ls[0], '\n'));
        lemma_no_match_lacking(l0, r, nl);
        lemma_split_prefix(l0, r, nl);
        let x = seq![Seq::<char>::empty()] + ls.skip(1);
        assert(l0 + x[0] =~= l0);
        assert(join_front(l0, x) =~= seq![l0] + ls.skip(1));
        assert(seq![Seq::<char>::empty()] + (seq![l0] + ls.skip(1)) =~= seq![Seq::<char>::empty()] + ls);
    }
}

/// Lines that are not empty, joined by line breaks, hold no two breaks in a
/// row and do not end in one.
pub proof fn lemma_lines_lone_breaks(ls: Seq<Seq<char>>)
    requires
        plain_lines(ls),
    ensures
        lone_breaks(lines_text(ls)),
        lines_text(ls).len() > 0 ==> lines_text(ls).last() != '\n',
    decreases ls.len(),
{
    reveal_strlit("\n");
    if ls.len() > 0 {
        let l0 = ls[0];
        assert(lacks_char(l0, '\n') && l0.len() > 0);
        assert forall|j: int| 0 <= j < ls.skip(1).len() implies lacks_char(#[trigger] ls.skip(1)[j], '\n')
            && ls.skip(1)[j].len() > 0 by {
            assert(ls.skip(1)[j] == ls[j + 1]);
        }
        lemma_lines_lone_breaks(ls.skip(1));
        let r = lines_text(ls.skip(1));
        let t = lines_text(ls);
        assert(t =~= "\n"@ + l0 + r);
        assert forall|i: int| 0 <= i < t.len() && #[trigger] t[i] == '\n' implies i + 1 < t.len() && t[i + 1]
            != '\n' by {
            if i == 0 {
                assert(t[1] == l0[0]);
            } else if i <= l0.len() {
                assert(t[i] == l0[i - 1]);
            } else {
                assert(t[i] == r[i - 1 - l0.len()]);
                assert(r[i - 1 - l0.len()] == '\n');
                assert(t[i + 1] == r[i - l0.len()]);
            }
        }
        if r.len() == 0 {
            assert(t.last() == l0.last());
        } else {
            assert(t.last() == r.last());
        }
    }
}

/// A chunk with lone line breaks, not ending in one, is followed by the
/// blank-line separator without an earlier occurrence of it.
pub proof fn lemma_chunk_then_blank(c: Seq<char>)
    requires
        c.len() > 0,
        lone_breaks(c),
        c.last() != '\n',
    ensures
        no_match_before(c + "\n\n"@, c.len() as int, "\n\n"@),
{
    reveal_strlit("\n\n");
    let sep = "\n\n"@;
    let x = c + sep;
    assert forall|i: int| 0 <= i < c.len() && i + sep.len() <= x.len() implies #[trigger] x.subrange(
        i,
        i + sep.len(),
    ) != sep by {
        if x.subrange(i, i + sep.len()) == sep {
            assert(x.subrange(i, i + sep.len())[0] == x[i]);
            assert(x.subrange(i, i + sep.len())[1] == x[i + 1]);
            assert(x[i] == c[i]);
            if i + 1 < c.len() {
                assert(x[i + 1] == c[i + 1]);
            } else {
                assert(c[i] == c.last());
            }
        }
    }
}

/// The profile name of the header line of a valid name is that name.
pub proof fn lemma_header_name(n: Seq<char>)
    requires
        valid_name(n),
    ensures
        header_name(header_text(n)) == n,
        lacks_char(header_text(n), '\n'),
        header_text(n).len() > 0,
{
    reveal_strlit(" ");
    reveal_strlit("[default]");
    reveal_strlit("[profile ");
    reveal_strlit("]");
    let sp = " "@;
    if n == "[default]"@ {
        assert(lacks_char(n, sp[0]));
        lemma_split_lacking(n, sp);
        assert(!is_ws(n.last()));
        assert(trim_end_seq(n) == n);
        assert(n[0] == '[');
        assert(!is_ws(n[0]));
        assert(trim_start_seq(n) == n);
    } else {
        let a = "[profile "@.take(8);
        let b = n + "]"@;
        assert("[profile "@ + n + "]"@ =~= a + sp + b);
        assert(lacks_char(a, sp[0]));
        lemma_no_match_lacking(a, sp, sp);
        lemma_split_piece(a, b, sp);
        assert(lacks_char(b, sp[0]));
        lemma_split_lacking(b, sp);
        let words = split_seq(header_text(n), sp);
        assert(words =~= seq![a, b]);
        assert(pop_seq(b) =~= n);
        assert(trim_end_seq(n) == n);
        assert(lacks_char(header_text(n), '\n'));
    }
}

/// A settings line splits into its key and its value.
pub proof fn lemma_field_line(key: Seq<char>, v: Seq<char>)
    requires
        lacks_char(key, ' '),
        valid_value(v),
    ensures
        split_seq(key + " = "@ + v, " = "@) == seq![key, v],
{
    reveal_strlit(" = ");
    let eq = " = "@;
    assert(lacks_char(key, eq[0]));
    lemma_no_match_lacking(key, eq + v, eq);
    assert(key + eq + v =~= key + (eq + v));
    lemma_split_prefix(key, eq + v, eq);
    lemma_split_sep_first(v, eq);
    lemma_split_whole(v, eq);
    assert(key + Seq::<char>::empty() =~= key);
    assert(join_front(key, seq![Seq::<char>::empty()] + seq![v]) =~= seq![key, v]);
}

/// The setting `key` of `q`, set to `v` when there is a value.
pub open spec fn set_opt(q: ProfileView, key: Seq<char>, v: Option<Seq<char>>) -> ProfileView {
    match v {
        Some(x) => apply_field(q, key, x),
        None => q,
    }
}

pub proof fn lemma_parse_fields_step(ls: Seq<Seq<char>>, key: Seq<char>, v: Option<Seq<char>>)
    requires
        lacks_char(key, ' '),
        valid_opt(v),
    ensures
        parse_fields(ls + opt_line(key, v)) == match parse_fields(ls) {
            None => None,
            Some(q) => Some(set_opt(q, key, v)),
        },
{
    reveal_strlit(" = ");
    match v {
        Some(x) => {
            let l = key + " = "@ + x;
            let all = ls + seq![l];
            assert(all.drop_last() =~= ls);
            assert(all.last() == l);
            lemma_field_line(key, x);
        },
        None => {
            assert(ls + opt_line(key, v) =~= ls);
        },
    }
}

/// The settings lines of a valid profile read back as that profile.
pub proof fn lemma_parse_field_lines(p: ProfileView)
    requires
        valid_profile(p),
    ensures
        parse_fields(field_lines(p)) == Some(p),
        plain_lines(field_lines(p)),
{
    reveal_strlit("source_profile");
    reveal_strlit("region");
    reveal_strlit("output");
    reveal_strlit("role_arn");
    reveal_strlit("mfa_serial");
    reveal_strlit(" = ");
    let l1 = opt_line("source_profile"@, p.source_profile);
    let l2 = opt_line("region"@, p.region);
    let l3 = opt_line("output"@, p.output);
    let l4 = opt_line("role_arn"@, p.role_arn);
    let l5 = opt_line("mfa_serial"@, p.mfa_serial);
    let e = Seq::<Seq<char>>::empty();
    assert(e + l1 =~= l1);
    assert(parse_fields(e) == Some(empty_profile()));
    lemma_parse_fields_step(e, "source_profile"@, p.source_profile);
    lemma_parse_fields_step(l1, "region"@, p.region);
    lemma_parse_fields_step(l1 + l2, "output"@, p.output);
    lemma_parse_fields_step(l1 + l2 + l3, "role_arn"@, p.role_arn);
    lemma_parse_fields_step(l1 + l2 + l3 + l4, "mfa_serial"@, p.mfa_serial);
    let q1 = set_opt(empty_profile(), "source_profile"@, p.source_profile);
    let q2 = set_opt(q1, "region"@, p.region);
    let q3 = set_opt(q2, "output"@, p.output);
    let q4 = set_opt(q3, "role_arn"@, p.role_arn);
    let q5 = set_opt(q4, "mfa_serial"@, p.mfa_serial);
    assert(q5 == p);
    let fl = field_lines(p);
    assert forall|j: int| 0 <= j < fl.len() implies lacks_char(#[trigger] fl[j], '\n') && fl[j].len() > 0 by {
        let (k, v) = if j < l1.len() {
            ("source_profile"@, p.source_profile)
        } else if j < l1.len() + l2.len() {
            ("region"@, p.region)
        } else if j < l1.len() + l2.len() + l3.len() {
            ("output"@, p.output)
        } else if j < l1.len() + l2.len() + l3.len() + l4.len() {
            ("role_arn"@, p.role_arn)
        } else {
            ("mfa_serial"@, p.mfa_serial)
        };
        let x = v.unwrap();
        assert(fl[j] == k + " = "@ + x);
        assert(lacks_char(k, '\n'));
        assert forall|i: int| 0 <= i < fl[j].len() implies #[trigger] fl[j][i] != '\n' by {
            if i < k.len() {
                assert(fl[j][i] == k[i]);
            } else if i < k.len() + 3 {
            } else {
                assert(fl[j][i] == x[i - k.len() - 3]);
            }
        }
    }
}

/// The chunk of a valid profile reads back as its name and settings.
pub proof fn lemma_parse_profile_chunk(n: Seq<char>, p: ProfileView)
    requires
        valid_name(n),
        valid_profile(p),
    ensures
        parse_chunk(profile_chunk(n, p)) == Some((n, p)),
        profile_chunk(n, p).len() > 0,
        lone_breaks(profile_chunk(n, p)),
        profile_chunk(n, p).last() != '\n',
{
    let h = header_text(n);
    let fl = field_lines(p);
    lemma_chunk_lines(n, p);
    lemma_header_name(n);
    lemma_parse_field_lines(p);
    lemma_header_and_lines(h, fl);
    let lines = split_seq(profile_chunk(n, p), "\n"@);
    assert(lines.skip(1) =~= fl);
    assert(lines[0] == h);
}

/// The chunks of a written config file are the chunks of its profiles.
pub proof fn lemma_config_chunks(es: Seq<EntryView>)
    requires
        forall|i: int| 0 <= i < es.len() ==> valid_name(#[trigger] es[i].0) && valid_profile(es[i].1),
    ensures
        split_seq(config_text(es), "\n\n"@) == es.map_values(|e: EntryView| profile_chunk(e.0, e.1)).push(
            Seq::<char>::empty(),
        ),
    decreases es.len(),
{
    reveal_strlit("\n\n");
    let sep = "\n\n"@;
    let cs = es.map_values(|e: EntryView| profile_chunk(e.0, e.1));
    if es.len() == 0 {
        assert(split_seq(Seq::<char>::empty(), sep) == seq![Seq::<char>::empty()]);
        assert(cs.push(Seq::<char>::empty()) =~= seq![Seq::<char>::empty()]);
    } else {
        let pre = es.drop_last();
        let e = es.last();
        assert(e == es[es.len() - 1]);
        lemma_config_chunks(pre);
        let c = profile_chunk(e.0, e.1);
        lemma_parse_profile_chunk(e.0, e.1);
        lemma_chunk_then_blank(c);
        lemma_split_piece(c, Seq::<char>::empty(), sep);
        assert(c + sep + Seq::<char>::empty() =~= profile_text(e.0, e.1));
        let x = config_text(pre);
        let pcs = pre.map_values(|e: EntryView| profile_chunk(e.0, e.1));
        assert(split_seq(x, sep).last() == Seq::<char>::empty());
        lemma_split_append(x, profile_text(e.0, e.1), sep);
        assert(split_seq(Seq::<char>::empty(), sep) == seq![Seq::<char>::empty()]);
        assert(split_seq(x, sep).drop_last() =~= pcs);
        assert(cs =~= pcs.push(c));
        assert(pcs + (seq![c] + seq![Seq::<char>::empty()]) =~= cs.push(Seq::<char>::empty()));
    }
}

/// The chunks of writable profiles read back as those profiles.
pub proof fn lemma_parse_written_chunks(es: Seq<EntryView>)
    requires
        writable(es),
    ensures
        parse_chunks(es.map_values(|e: EntryView| profile_chunk(e.0, e.1))) == Some(es),
    decreases es.len(),
{
    let cs = es.map_values(|e: EntryView| profile_chunk(e.0, e.1));
    if es.len() == 0 {
        assert(cs =~= Seq::<Seq<char>>::empty());
    } else {
        let pre = es.drop_last();
        let e = es.last();
        assert(e == es[es.len() - 1]);
        assert forall|a: int, b: int| 0 <= a < pre.len() && 0 <= b < pre.len() && a != b implies #[trigger] pre[a].0
            != #[trigger] pre[b].0 by {
            assert(pre[a] == es[a] && pre[b] == es[b]);
        }
        assert forall|i: int| 0 <= i < pre.len() implies valid_name(#[trigger] pre[i].0) && valid_profile(pre[i].1) by {
            assert(pre[i] == es[i]);
        }
        lemma_parse_written_chunks(pre);
        assert(cs.drop_last() =~= pre.map_values(|e: EntryView| profile_chunk(e.0, e.1)));
        assert(cs.last() == profile_chunk(e.0, e.1));
        lemma_parse_profile_chunk(e.0, e.1);
        if has_name(pre, e.0) {
            let k = choose|k: int| 0 <= k < pre.len() && #[trigger] pre[k].0 == e.0;
            assert(es[k].0 == es[es.len() - 1].0);
        }
        assert(insert_entry(pre, e.0, e.1) =~= es);
    }
}

/// Writing profiles that the config file can hold and reading the text back
/// gives the same profiles, in the same order.
pub proof fn lemma_config_roundtrip(es: Seq<EntryView>)
    requires
        writable(es),
    ensures
        parse_config(config_text(es)) == Some(es),
{
    lemma_config_chunks(es);
    let cs = es.map_values(|e: EntryView| profile_chunk(e.0, e.1));
    assert(file_chunks(config_text(es)) =~= cs);
    lemma_parse_written_chunks(es);
}


// ----- what is read can be written -----

/// A part of a text without `c` is without `c`.
pub proof fn lemma_lacks_subrange(s: Seq<char>, c: char, a: int, b: int)
    requires
        lacks_char(s, c),
        0 <= a <= b <= s.len(),
    ensures
        lacks_char(s.subrange(a, b), c),
{
    assert forall|i: int| 0 <= i < b - a implies #[trigger] s.subrange(a, b)[i] != c by {
        assert(s.subrange(a, b)[i] == s[a + i]);
    }
}

/// The pieces of a text split on a one-character separator lack that
/// character, and lack whatever the text lacks.
proof fn lemma_pieces_lack(s: Seq<char>, sep: Seq<char>, c: char)
    requires
        sep.len() == 1,
        lacks_char(s, c),
    ensures
        forall|j: int| 0 <= j < split_seq(s, sep).len() ==> lacks_char(#[trigger] split_seq(s, sep)[j], sep[0])
            && lacks_char(split_seq(s, sep)[j], c),
{
    lemma_split_pieces(s, sep);
    lemma_split_lacks(s, sep, c);
    assert forall|j: int| 0 <= j < split_seq(s, sep).len() implies lacks_char(
        #[trigger] split_seq(s, sep)[j],
        sep[0],
    ) by {
        lemma_lacks_from_contains(split_seq(s, sep)[j], sep);
    }
}

/// The name that a header line without line breaks gives is empty or valid.
pub proof fn lemma_header_name_valid(line: Seq<char>)
    requires
        lacks_char(line, '\n'),
    ensures
        header_name(line).len() == 0 || valid_name(header_name(line)),
{
    reveal_strlit(" ");
    let sp = " "@;
    let words = split_seq(line, sp);
    lemma_split_nonempty(line, sp);
    lemma_pieces_lack(line, sp, '\n');
    if words.len() > 1 {
        let w = words[1];
        assert(lacks_char(w, ' ') && lacks_char(w, '\n'));
        let x = pop_seq(w);
        if w.len() > 0 {
            lemma_lacks_subrange(w, ' ', 0, w.len() - 1);
            lemma_lacks_subrange(w, '\n', 0, w.len() - 1);
            assert(x =~= w.subrange(0, w.len() - 1));
        }
        assert(lacks_char(x, ' ') && lacks_char(x, '\n'));
        lemma_trim_end(x);
        let n = trim_end_seq(x);
        lemma_lacks_subrange(x, ' ', 0, n.len() as int);
        lemma_lacks_subrange(x, '\n', 0, n.len() as int);
        assert(n =~= x.subrange(0, n.len() as int));
    } else {
        let w = words[0];
        assert(lacks_char(w, ' ') && lacks_char(w, '\n'));
        lemma_trim_end(w);
        let t = trim_end_seq(w);
        lemma_lacks_subrange(w, ' ', 0, t.len() as int);
        lemma_lacks_subrange(w, '\n', 0, t.len() as int);
        assert(t =~= w.subrange(0, t.len() as int));
        lemma_trim_start(t);
        let u = trim_start_seq(t);
        lemma_lacks_subrange(t, ' ', t.len() - u.len(), t.len() as int);
        lemma_lacks_subrange(t, '\n', t.len() - u.len(), t.len() as int);
        assert(u =~= t.subrange(t.len() - u.len(), t.len() as int));
    }
}

/// A setting read from a line without line breaks can be written back.
proof fn lemma_apply_field_valid(q: ProfileView, key: Seq<char>, v: Seq<char>)
    requires
        valid_profile(q),
        valid_value(v),
    ensures
        valid_profile(apply_field(q, key, v)),
{
}

/// The settings read from lines without line breaks can be written back.
pub proof fn lemma_parse_fields_valid(lines: Seq<Seq<char>>)
    requires
        forall|j: int| 0 <= j < lines.len() ==> lacks_char(#[trigger] lines[j], '\n'),
        parse_fields(lines) is Some,
    ensures
        valid_profile(parse_fields(lines).unwrap()),
    decreases lines.len(),
{
    reveal_strlit(" = ");
    if lines.len() > 0 {
        let pre = lines.drop_last();
        assert forall|j: int| 0 <= j < pre.len() implies lacks_char(#[trigger] pre[j], '\n') by {
            assert(pre[j] == lines[j]);
        }
        lemma_parse_fields_valid(pre);
        let l = lines.last();
        assert(l == lines[lines.len() - 1]);
        let parts = split_seq(l, " = "@);
        lemma_split_pieces(l, " = "@);
        lemma_split_lacks(l, " = "@, '\n');
        assert(!contains_seq(parts[1], " = "@));
        assert(lacks_char(parts[1], '\n'));
        lemma_apply_field_valid(parse_fields(pre).unwrap(), parts[0], parts[1]);
    }
}

/// A chunk that reads gives an empty or valid name and writable settings.
pub proof fn lemma_parse_chunk_valid(chunk: Seq<char>)
    requires
        parse_chunk(chunk) is Some,
    ensures
        parse_chunk(chunk).unwrap().0.len() == 0 || valid_name(parse_chunk(chunk).unwrap().0),
        valid_profile(parse_chunk(chunk).unwrap().1),
{
    reveal_strlit("\n");
    let nl = "\n"@;
    let lines = split_seq(chunk, nl);
    lemma_split_nonempty(chunk, nl);
    lemma_split_pieces(chunk, nl);
    assert forall|j: int| 0 <= j < lines.len() implies lacks_char(#[trigger] lines[j], '\n') by {
        lemma_lacks_from_contains(lines[j], nl);
    }
    lemma_header_name_valid(lines[0]);
    let fl = lines.skip(1);
    assert forall|j: int| 0 <= j < fl.len() implies lacks_char(#[trigger] fl[j], '\n') by {
        assert(fl[j] == lines[j + 1]);
    }
    lemma_parse_fields_valid(fl);
}

/// Inserting a valid profile keeps the profiles writable.
pub proof fn lemma_insert_writable(es: Seq<EntryView>, n: Seq<char>, p: ProfileView)
    requires
        writable(es),
        valid_name(n),
        valid_profile(p),
    ensures
        writable(insert_entry(es, n, p)),
{
    let r = insert_entry(es, n, p);
    if has_name(es, n) {
        let k = choose|k: int| 0 <= k < es.len() && #[trigger] es[k].0 == n;
        assert(es[k].0 == n);
        assert forall|a: int, b: int| 0 <= a < r.len() && 0 <= b < r.len() && a != b implies #[trigger] r[a].0
            != #[trigger] r[b].0 by {
            assert(r[a].0 == es[a].0 && r[b].0 == es[b].0);
        }
        assert forall|i: int| 0 <= i < r.len() implies valid_name(#[trigger] r[i].0) && valid_profile(r[i].1) by {
            if r[i] != es[i] {
                assert(r[i] == (n, p));
            }
        }
    } else {
        assert forall|a: int, b: int| 0 <= a < r.len() && 0 <= b < r.len() && a != b implies #[trigger] r[a].0
            != #[trigger] r[b].0 by {
            if a < es.len() && b < es.len() {
                assert(r[a] == es[a] && r[b] == es[b]);
            } else if a < es.len() {
                assert(r[a] == es[a]);
            } else {
                assert(r[b] == es[b]);
            }
        }
        assert forall|i: int| 0 <= i < r.len() implies valid_name(#[trigger] r[i].0) && valid_profile(r[i].1) by {
            if i < es.len() {
                assert(r[i] == es[i]);
            }
        }
    }
}

/// Profiles read from chunks are writable.
pub proof fn lemma_parse_chunks_writable(chunks: Seq<Seq<char>>)
    requires
        parse_chunks(chunks) is Some,
    ensures
        writable(parse_chunks(chunks).unwrap()),
    decreases chunks.len(),
{
    if chunks.len() > 0 {
        lemma_parse_chunks_writable(chunks.drop_last());
        lemma_parse_chunk_valid(chunks.last());
        let es = parse_chunks(chunks.drop_last()).unwrap();
        let e = parse_chunk(chunks.last()).unwrap();
        if e.0.len() != 0 {
            lemma_insert_writable(es, e.0, e.1);
        }
    }
}

/// Profiles read from any config file are writable.
pub proof fn lemma_parsed_writable(text: Seq<char>)
    requires
        parse_config(text) is Some,
    ensures
        writable(parse_config(text).unwrap()),
{
    lemma_parse_chunks_writable(file_chunks(text));
}


/// A header line followed by plain lines: it splits back into those lines,
/// and it holds no two line breaks in a row and does not end in one.
pub proof fn lemma_header_and_lines(h: Seq<char>, ls: Seq<Seq<char>>)
    requires
        h.len() > 0,
        lacks_char(h, '\n'),
        plain_lines(ls),
    ensures
        split_seq(h + lines_text(ls), "\n"@) == seq![h] + ls,
        lone_breaks(h + lines_text(ls)),
        (h + lines_text(ls)).last() != '\n',
        (h + lines_text(ls)).len() > 0,
{
    reveal_strlit("\n");
    let t = lines_text(ls);
    lemma_lines_split(ls);
    lemma_no_match_lacking(h, t, "\n"@);
    lemma_split_prefix(h, t, "\n"@);
    let x = seq![Seq::<char>::empty()] + ls;
    assert(h + x[0] =~= h);
    assert(join_front(h, x) =~= seq![h] + ls);
    lemma_lines_lone_breaks(ls);
    let c = h + t;
    assert forall|i: int| 0 <= i < c.len() && #[trigger] c[i] == '\n' implies i + 1 < c.len() && c[i + 1]
        != '\n' by {
        if i < h.len() {
            assert(c[i] == h[i]);
        } else {
            assert(c[i] == t[i - h.len()]);
            assert(c[i + 1] == t[i + 1 - h.len()]);
        }
    }
    if t.len() == 0 {
        assert(c.last() == h.last());
        assert(h.last() == h[h.len() - 1]);
    } else {
        assert(c.last() == t.last());
    }
}

/// A `key = value` line, with a key without spaces or line breaks and a
/// value without line breaks, is a plain line whose first part is the key.
pub proof fn lemma_key_value_line(key: Seq<char>, v: Seq<char>)
    requires
        key.len() > 0,
        lacks_char(key, ' '),
        lacks_char(key, '\n'),
        lacks_char(v, '\n'),
    ensures
        lacks_char(key + " = "@ + v, '\n'),
        (key + " = "@ + v).len() > 0,
        split_seq(key + " = "@ + v, " = "@)[0] == key,
        split_seq(key + " = "@ + v, " = "@).len() >= 2,
{
    reveal_strlit(" = ");
    let eq = " = "@;
    let l = key + eq + v;
    assert forall|i: int| 0 <= i < l.len() implies #[trigger] l[i] != '\n' by {
        if i < key.len() {
            assert(l[i] == key[i]);
        } else if i < key.len() + 3 {
        } else {
            assert(l[i] == v[i - key.len() - 3]);
        }
    }
    assert(lacks_char(key, eq[0]));
    lemma_no_match_lacking(key, eq + v, eq);
    assert(l =~= key + (eq + v));
    lemma_split_prefix(key, eq + v, eq);
    lemma_split_sep_first(v, eq);
    lemma_split_nonempty(v, eq);
    assert(key + Seq::<char>::empty() =~= key);
}

} // verus!
