//! Laws of the library: what reading gives back of writing, what creating,
//! cleaning and refreshing leave behind, and the ranges of the time left.

use vstd::prelude::*;
use crate::config::{
    config_text, file_chunks, has_name, strip_breaks, insert_entry, parse_chunks,
    parse_config, profile_chunk, profile_text, remove_entry, EntryView, ProfileView,
};
use crate::credentials::{
    credentials_entry, expiration_time, first_line, kept_chunks, kept_chunks_text,
    lemma_clean_chunk, lemma_file_chunks_clean, lemma_kept_expiration_empty, lemma_kept_expiration_other,
    lemma_kept_text_chunks, lemma_section_line_injective, removed_credentials, scan_expiration,
    section_line, session_name, session_profile, session_profile_entry, session_region,
    CredentialsView,
};
use crate::roundtrip::{
    lemma_chunk_then_blank, lemma_config_chunks, lemma_config_roundtrip, lemma_field_line,
    lemma_header_and_lines, lemma_key_value_line, lemma_parse_profile_chunk, lemma_parsed_writable,
    lines_text, plain_lines, valid_name, valid_profile, valid_value, writable,
};
use crate::config::{distinct_names, lookup, name_index};
use crate::expiry::{session_state, SessionState};
use crate::session_handler::{
    create_outcome, finds_session, is_session, non_sessions, refresh_steps, session_names, CreateFault,
    PlanView,
};
use crate::text::{
    contains_seq, lemma_split_pieces, no_match_before, is_ws, lacks_char, lemma_split_append, lemma_split_nonempty, lemma_split_piece, split_seq,
};

verus! {

/// Saving profiles that the config file can hold (distinct names without
/// spaces or line breaks, not ending in whitespace; settings without line
/// breaks or ` = `) and loading the text gives back the same profiles, in
/// the same order.
pub proof fn law_save_then_load(es: Seq<EntryView>)
    requires
        writable(es),
    ensures
        parse_config(config_text(es)) == Some(es),
{
    lemma_config_roundtrip(es);
}

/// Whatever profiles a config file loads as, saving them and loading the
/// saved text gives the same profiles again.
pub proof fn law_load_save_load(text: Seq<char>)
    requires
        parse_config(text) is Some,
    ensures
        parse_config(config_text(parse_config(text).unwrap())) == parse_config(text),
{
    lemma_parsed_writable(text);
    lemma_config_roundtrip(parse_config(text).unwrap());
}

/// The session entry that `create` appends to a saved config file reads back
/// as the session profile, with the region it was written with.
pub proof fn law_session_entry_loads(es: Seq<EntryView>, name: Seq<char>, p: ProfileView)
    requires
        writable(es),
        lacks_char(name, ' '),
        lacks_char(name, '\n'),
        valid_value(session_region(p)),
    ensures
        parse_config(config_text(es) + session_profile_entry(name, p)) == Some(
            insert_entry(es, session_name(name), session_profile(p)),
        ),
        create_outcome(insert_entry(es, session_name(name), session_profile(p)), name) == Ok::<
            PlanView,
            CreateFault,
        >(PlanView::AlreadyExists { session: session_name(name) }),
{
    reveal_strlit("-session");
    reveal_strlit("[default]");
    reveal_strlit("[profile ");
    reveal_strlit("]");
    reveal_strlit("]\nregion = ");
    reveal_strlit("\nregion = ");
    reveal_strlit("\n");
    reveal_strlit("region");
    reveal_strlit(" = ");
    reveal_strlit("\n\n");
    let sn = session_name(name);
    let sp = session_profile(p);
    assert(sn.len() > 0);
    assert(sn.last() == 'n');
    assert(!is_ws(sn.last()));
    assert forall|i: int| 0 <= i < sn.len() implies #[trigger] sn[i] != ' ' && sn[i] != '\n' by {
        if i < name.len() {
            assert(sn[i] == name[i]);
        }
    }
    assert(valid_name(sn));
    assert(valid_profile(sp));
    assert(sn != "[default]"@) by {
        assert("[default]"@.last() == ']');
    }
    assert(session_profile_entry(name, p) =~= profile_text(sn, sp));
    let es2 = es.push((sn, sp));
    assert(es2.drop_last() =~= es);
    assert(config_text(es2) == config_text(es) + profile_text(sn, sp));
    assert forall|i: int| 0 <= i < es2.len() implies valid_name(#[trigger] es2[i].0) && valid_profile(es2[i].1) by {
        if i < es.len() {
            assert(es2[i] == es[i]);
        }
    }
    lemma_config_chunks(es2);
    lemma_config_chunks(es);
    lemma_config_roundtrip(es);
    let cs2 = es2.map_values(|e: EntryView| profile_chunk(e.0, e.1));
    let cs = es.map_values(|e: EntryView| profile_chunk(e.0, e.1));
    assert(file_chunks(config_text(es2)) =~= cs2);
    assert(file_chunks(config_text(es)) =~= cs);
    assert(cs2.drop_last() =~= cs);
    assert(cs2.last() == profile_chunk(sn, sp));
    lemma_parse_profile_chunk(sn, sp);
    assert(parse_chunks(cs2) == Some(insert_entry(es, sn, sp)));
    let es3 = insert_entry(es, sn, sp);
    if has_name(es, sn) {
        let k = choose|k: int| 0 <= k < es.len() && #[trigger] es[k].0 == sn;
        assert(es3[k].0 == sn);
    } else {
        assert(es3[es.len() as int].0 == sn);
    }
    assert(has_name(es3, sn));
}

/// Once the session of a profile is removed from profiles that the config
/// file can hold, the saved text loads without it, and `create` no longer
/// finds the session.
pub proof fn law_clean_then_load(es: Seq<EntryView>, name: Seq<char>)
    requires
        writable(es),
    ensures
        parse_config(config_text(remove_entry(es, session_name(name)))) == Some(
            remove_entry(es, session_name(name)),
        ),
        !has_name(remove_entry(es, session_name(name)), session_name(name)),
        !finds_session(create_outcome(remove_entry(es, session_name(name)), name)),
{
    let sn = session_name(name);
    let r = remove_entry(es, sn);
    if has_name(es, sn) {
        let k = choose|k: int| 0 <= k < es.len() && #[trigger] es[k].0 == sn;
        assert(es[k].0 == sn);
        assert forall|a: int, b: int| 0 <= a < r.len() && 0 <= b < r.len() && a != b implies #[trigger] r[a].0
            != #[trigger] r[b].0 by {
            let a2 = if a < k { a } else { a + 1 };
            let b2 = if b < k { b } else { b + 1 };
            assert(r[a] == es[a2] && r[b] == es[b2]);
        }
        assert forall|i: int| 0 <= i < r.len() implies valid_name(#[trigger] r[i].0) && valid_profile(r[i].1) by {
            let i2 = if i < k { i } else { i + 1 };
            assert(r[i] == es[i2]);
            assert(valid_name(es[i2].0) && valid_profile(es[i2].1));
        }
        if has_name(r, sn) {
            let j = choose|j: int| 0 <= j < r.len() && #[trigger] r[j].0 == sn;
            let j2 = if j < k { j } else { j + 1 };
            assert(r[j] == es[j2]);
        }
    }
    lemma_config_roundtrip(r);
}


/// After the entry of a name is removed from a credentials file, no
/// expiration is recorded for that name, and the expiration of every other
/// name reads as before.
pub proof fn law_remove_credentials(text: Seq<char>, name: Seq<char>, other: Seq<char>)
    requires
        other != name,
    ensures
        expiration_time(removed_credentials(text, name), name) == Some(Seq::<char>::empty()),
        expiration_time(removed_credentials(text, name), other) == expiration_time(text, other),
{
    let cs = file_chunks(text);
    lemma_file_chunks_clean(text);
    lemma_kept_text_chunks(cs, name);
    assert(file_chunks(removed_credentials(text, name)) =~= kept_chunks(cs, name));
    lemma_kept_expiration_empty(cs, name);
    lemma_section_line_injective(other, name);
    lemma_kept_expiration_other(cs, name, other);
}

/// The lines of a credentials entry after its first.
pub open spec fn credentials_lines(c: CredentialsView) -> Seq<Seq<char>> {
    seq![
        "aws_access_key_id"@ + " = "@ + c.access_key_id,
        "expiration"@ + " = "@ + c.expiration,
        "aws_secret_access_key"@ + " = "@ + c.secret_access_key,
        "aws_session_token"@ + " = "@ + c.session_token,
    ]
}

/// A credentials entry is its section line, its lines, and a blank line.
proof fn lemma_entry_shape(name: Seq<char>, c: CredentialsView)
    ensures
        credentials_entry(name, c) == section_line(session_name(name)) + lines_text(credentials_lines(c))
            + "\n\n"@,
{
    reveal_strlit("\n");
    reveal_strlit(" = ");
    reveal_strlit("\n\n");
    reveal_strlit("aws_access_key_id");
    reveal_strlit("expiration");
    reveal_strlit("aws_secret_access_key");
    reveal_strlit("aws_session_token");
    reveal_strlit("\naws_access_key_id = ");
    reveal_strlit("\nexpiration = ");
    reveal_strlit("\naws_secret_access_key = ");
    reveal_strlit("\naws_session_token = ");
    let ls = credentials_lines(c);
    let e = Seq::<Seq<char>>::empty();
    assert(ls.skip(1).skip(1).skip(1).skip(1) =~= e);
    assert(lines_text(ls.skip(1).skip(1).skip(1).skip(1)) == Seq::<char>::empty());
    let t4 = lines_text(ls.skip(1).skip(1).skip(1));
    let t3 = lines_text(ls.skip(1).skip(1));
    let t2 = lines_text(ls.skip(1));
    assert(ls.skip(1).skip(1).skip(1)[0] == ls[3]);
    assert(ls.skip(1).skip(1)[0] == ls[2]);
    assert(ls.skip(1)[0] == ls[1]);
    assert(t4 =~= "\n"@ + ls[3]);
    assert(t3 =~= "\n"@ + ls[2] + t4);
    assert(t2 =~= "\n"@ + ls[1] + t3);
    assert(lines_text(ls) =~= "\n"@ + ls[0] + t2);
    assert(credentials_entry(name, c) =~= section_line(session_name(name)) + lines_text(ls) + "\n\n"@);
}

/// The lines of the credentials entry of the session of `name`, without the
/// blank line after them.
pub open spec fn entry_chunk(name: Seq<char>, c: CredentialsView) -> Seq<char> {
    section_line(session_name(name)) + lines_text(credentials_lines(c))
}

/// Appending a credentials entry to a file that ends with a blank line (or
/// is empty) adds its lines as one more chunk.
proof fn lemma_entry_appended(text: Seq<char>, name: Seq<char>, c: CredentialsView)
    requires
        split_seq(text, "\n\n"@).last() == Seq::<char>::empty(),
        lacks_char(name, '\n'),
        lacks_char(c.access_key_id, '\n'),
        lacks_char(c.expiration, '\n'),
        lacks_char(c.secret_access_key, '\n'),
        lacks_char(c.session_token, '\n'),
    ensures
        file_chunks(text + credentials_entry(name, c)) == file_chunks(text).push(entry_chunk(name, c)),
        file_chunks(text) == split_seq(text, "\n\n"@).drop_last(),
        split_seq(text + credentials_entry(name, c), "\n\n"@).last() == Seq::<char>::empty(),
        first_line(entry_chunk(name, c)) == section_line(session_name(name)),
        split_seq(entry_chunk(name, c), "\n"@).skip(1) == credentials_lines(c),
{
    reveal_strlit("\n");
    reveal_strlit(" = ");
    reveal_strlit("\n\n");
    reveal_strlit("aws_access_key_id");
    reveal_strlit("expiration");
    reveal_strlit("aws_secret_access_key");
    reveal_strlit("aws_session_token");
    reveal_strlit("[");
    reveal_strlit("]");
    reveal_strlit("-session");
    let sn = session_name(name);
    let h = section_line(sn);
    let ls = credentials_lines(c);
    lemma_entry_shape(name, c);
    assert forall|i: int| 0 <= i < h.len() implies #[trigger] h[i] != '\n' by {
        if 1 <= i < name.len() + 1 {
            assert(h[i] == name[i - 1]);
        }
    }
    lemma_key_value_line("aws_access_key_id"@, c.access_key_id);
    lemma_key_value_line("expiration"@, c.expiration);
    lemma_key_value_line("aws_secret_access_key"@, c.secret_access_key);
    lemma_key_value_line("aws_session_token"@, c.session_token);
    assert(plain_lines(ls));
    lemma_header_and_lines(h, ls);
    let chunk = h + lines_text(ls);
    lemma_chunk_then_blank(chunk);
    lemma_split_piece(chunk, Seq::<char>::empty(), "\n\n"@);
    assert(chunk + "\n\n"@ + Seq::<char>::empty() =~= credentials_entry(name, c));
    assert(split_seq(Seq::<char>::empty(), "\n\n"@) == seq![Seq::<char>::empty()]);
    lemma_split_append(text, credentials_entry(name, c), "\n\n"@);
    lemma_split_nonempty(text, "\n\n"@);
    assert(strip_breaks(Seq::<char>::empty()) == Seq::<char>::empty());
    assert(file_chunks(text) == split_seq(text, "\n\n"@).drop_last());
    assert(file_chunks(text + credentials_entry(name, c)) =~= file_chunks(text).push(chunk));
    assert(first_line(chunk) == h);
    assert(split_seq(chunk, "\n"@).skip(1) =~= ls);
}

/// The expiration written with a credentials entry is what reading that
/// entry back gives, when the file before it ends with a blank line (or is
/// empty) and reads; other names read as before. Values hold no line breaks,
/// and the expiration no ` = `.
pub proof fn law_credentials_read_back(text: Seq<char>, name: Seq<char>, c: CredentialsView, other: Seq<char>)
    requires
        split_seq(text, "\n\n"@).last() == Seq::<char>::empty(),
        expiration_time(text, session_name(name)) is Some,
        lacks_char(name, '\n'),
        lacks_char(c.access_key_id, '\n'),
        lacks_char(c.secret_access_key, '\n'),
        lacks_char(c.session_token, '\n'),
        valid_value(c.expiration),
        other != session_name(name),
    ensures
        expiration_time(text + credentials_entry(name, c), session_name(name)) == Some(c.expiration),
        expiration_time(text + credentials_entry(name, c), other) == expiration_time(text, other),
{
    reveal_strlit("expiration");
    reveal_strlit("aws_access_key_id");
    reveal_strlit("aws_secret_access_key");
    reveal_strlit("aws_session_token");
    reveal_strlit(" = ");
    let sn = session_name(name);
    let ls = credentials_lines(c);
    lemma_entry_appended(text, name, c);
    lemma_key_value_line("aws_access_key_id"@, c.access_key_id);
    lemma_key_value_line("aws_secret_access_key"@, c.secret_access_key);
    lemma_key_value_line("aws_session_token"@, c.session_token);
    lemma_field_line("expiration"@, c.expiration);
    let cs = file_chunks(text);
    let chunk = entry_chunk(name, c);
    assert(cs.push(chunk).drop_last() =~= cs);
    let v = expiration_time(text, sn).unwrap();
    assert(ls.take(1).drop_last() =~= Seq::<Seq<char>>::empty());
    assert(ls.take(2).drop_last() =~= ls.take(1));
    assert(ls.take(3).drop_last() =~= ls.take(2));
    assert(ls.drop_last() =~= ls.take(3));
    assert(ls.take(1).last() == ls[0]);
    assert(ls.take(2).last() == ls[1]);
    assert(ls.take(3).last() == ls[2]);
    assert(ls.last() == ls[3]);
    assert("aws_access_key_id"@ != "expiration"@);
    assert("aws_secret_access_key"@ != "expiration"@);
    assert("aws_session_token"@ != "expiration"@);
    assert(scan_expiration(v, Seq::<Seq<char>>::empty()) == Some(v));
    assert(scan_expiration(v, ls.take(1)) == Some(v));
    assert(scan_expiration(v, ls.take(2)) == Some(c.expiration));
    assert(scan_expiration(v, ls.take(3)) == Some(c.expiration));
    assert(scan_expiration(v, ls) == Some(c.expiration));
    lemma_section_line_injective(other, sn);
}

/// Chunks joined by blank lines, each chunk followed by one.
pub open spec fn joined_chunks(cs: Seq<Seq<char>>) -> Seq<char>
    decreases cs.len(),
{
    if cs.len() == 0 {
        Seq::empty()
    } else {
        joined_chunks(cs.drop_last()) + cs.last() + "\n\n"@
    }
}

/// Removing a name that heads no chunk writes the chunks back as they are.
proof fn lemma_kept_all(cs: Seq<Seq<char>>, name: Seq<char>)
    requires
        forall|j: int| 0 <= j < cs.len() ==> first_line(#[trigger] cs[j]) != section_line(name),
    ensures
        kept_chunks_text(cs, name) == joined_chunks(cs),
        kept_chunks(cs, name) == cs,
    decreases cs.len(),
{
    if cs.len() > 0 {
        let pre = cs.drop_last();
        assert forall|j: int| 0 <= j < pre.len() implies first_line(#[trigger] pre[j]) != section_line(name) by {
            assert(pre[j] == cs[j]);
        }
        lemma_kept_all(pre, name);
        assert(cs.last() == cs[cs.len() - 1]);
        assert(kept_chunks_text(cs, name) =~= joined_chunks(cs));
        assert(pre.push(cs.last()) =~= cs);
    } else {
        assert(kept_chunks(cs, name) =~= cs);
    }
}

/// Chunks without a blank line in them and not ending in a line break,
/// joined by blank lines, split back into those chunks.
pub proof fn law_join_then_split(cs: Seq<Seq<char>>)
    requires
        forall|j: int|
            0 <= j < cs.len() ==> !contains_seq(#[trigger] cs[j], "\n\n"@) && (cs[j].len() > 0 ==> cs[j].last()
                != '\n'),
    ensures
        file_chunks(joined_chunks(cs)) == cs,
        split_seq(joined_chunks(cs), "\n\n"@).last() == Seq::<char>::empty(),
{
    assert forall|j: int| 0 <= j < cs.len() implies no_match_before(#[trigger] cs[j] + "\n\n"@, cs[j].len() as int, "\n\n"@) by {
        lemma_clean_chunk(cs[j]);
    }
    let nobody = seq!['\n'];
    assert forall|j: int| 0 <= j < cs.len() implies first_line(#[trigger] cs[j]) != section_line(nobody) by {
        if first_line(cs[j]) == section_line(nobody) {
            reveal_strlit("\n");
            reveal_strlit("[");
            reveal_strlit("]");
            lemma_split_pieces(cs[j], "\n"@);
            lemma_split_nonempty(cs[j], "\n"@);
            let f = first_line(cs[j]);
            assert(f[1] == '\n');
            assert(f.subrange(1, 2) =~= "\n"@);
            assert(f.subrange(1int, 1int + "\n"@.len()) == "\n"@);
            assert(contains_seq(f, "\n"@));
        }
    }
    lemma_kept_all(cs, nobody);
    lemma_kept_text_chunks(cs, nobody);
    assert(strip_breaks(Seq::<char>::empty()) == Seq::<char>::empty());
    assert(cs.push(Seq::<char>::empty()).drop_last() =~= cs);
}

/// Removing the session entry just appended to a credentials file written
/// in the form this tool writes it (its chunks joined by blank lines), which
/// held no entry of that session, gives the file back.
pub proof fn law_append_then_remove(text: Seq<char>, name: Seq<char>, c: CredentialsView)
    requires
        text == joined_chunks(file_chunks(text)),
        forall|j: int|
            0 <= j < file_chunks(text).len() ==> first_line(#[trigger] file_chunks(text)[j]) != section_line(
                session_name(name),
            ),
        lacks_char(name, '\n'),
        lacks_char(c.access_key_id, '\n'),
        lacks_char(c.expiration, '\n'),
        lacks_char(c.secret_access_key, '\n'),
        lacks_char(c.session_token, '\n'),
    ensures
        removed_credentials(text + credentials_entry(name, c), session_name(name)) == text,
{
    let sn = session_name(name);
    let cs = file_chunks(text);
    lemma_file_chunks_clean(text);
    lemma_kept_text_chunks(cs, sn);
    lemma_kept_all(cs, sn);
    assert(split_seq(text, "\n\n"@).last() == Seq::<char>::empty());
    lemma_entry_appended(text, name, c);
    let chunk = entry_chunk(name, c);
    let all = cs.push(chunk);
    assert(all.drop_last() =~= cs);
    assert(all.last() == chunk);
    assert(kept_chunks_text(all, sn) =~= kept_chunks_text(cs, sn));
}

/// `clean all` leaves no session profile, keeps every other profile, and
/// names every session it removes.
pub proof fn law_clean_all(es: Seq<EntryView>)
    ensures
        forall|i: int| 0 <= i < non_sessions(es).len() ==> !is_session(#[trigger] non_sessions(es)[i].0),
        forall|i: int| 0 <= i < es.len() && !is_session(#[trigger] es[i].0) ==> non_sessions(es).contains(es[i]),
        forall|i: int| 0 <= i < es.len() && is_session(#[trigger] es[i].0) ==> session_names(es).contains(es[i].0),
    decreases es.len(),
{
    if es.len() > 0 {
        let pre = es.drop_last();
        law_clean_all(pre);
        let l = es.last();
        assert(l == es[es.len() - 1]);
        let ns = non_sessions(es);
        let pns = non_sessions(pre);
        assert forall|i: int| 0 <= i < ns.len() implies !is_session(#[trigger] ns[i].0) by {
            if !is_session(l.0) && i == pns.len() {
                assert(ns[i] == l);
            } else {
                assert(ns[i] == pns[i]);
            }
        }
        assert forall|i: int| 0 <= i < es.len() && !is_session(#[trigger] es[i].0) implies ns.contains(es[i]) by {
            if i < pre.len() {
                assert(es[i] == pre[i]);
                assert(pns.contains(pre[i]));
                let j = choose|j: int| 0 <= j < pns.len() && pns[j] == pre[i];
                if is_session(l.0) {
                    assert(ns[j] == pns[j]);
                } else {
                    assert(ns[j] == pns[j]);
                }
            } else {
                assert(ns[pns.len() as int] == l);
            }
        }
        let sn = session_names(es);
        let psn = session_names(pre);
        assert forall|i: int| 0 <= i < es.len() && is_session(#[trigger] es[i].0) implies sn.contains(es[i].0) by {
            if i < pre.len() {
                assert(es[i] == pre[i]);
                assert(psn.contains(pre[i].0));
                let j = choose|j: int| 0 <= j < psn.len() && psn[j] == pre[i].0;
                assert(sn[j] == psn[j]);
            } else {
                assert(sn[psn.len() as int] == l.0);
            }
        }
    }
}

/// The time left `show` reports: hours below a day, minutes and seconds
/// below sixty, none of them negative; a session is expired exactly when its
/// expiration lies before the present instant.
pub proof fn law_time_left(expiration: i64, now_secs: i64, now_nanos: u32)
    ensures
        match session_state(expiration, now_secs, now_nanos) {
            SessionState::Active { hours, minutes, seconds } => {
                &&& 0 <= hours < 24
                &&& 0 <= minutes < 60
                &&& 0 <= seconds < 60
                &&& expiration * 1_000_000_000 >= now_secs * 1_000_000_000 + now_nanos
            },
            SessionState::Expired => expiration * 1_000_000_000 < now_secs * 1_000_000_000 + now_nanos,
        },
{
}

/// `refresh` renews a session only when its profile exists and has a source
/// profile.
pub proof fn law_refresh_renews_child_profiles(es: Seq<EntryView>, part: Seq<EntryView>)
    ensures
        forall|k: int|
            0 <= k < refresh_steps(es, part).len() ==> (lookup(es, #[trigger] refresh_steps(es, part)[k]) matches Some(
                p,
            ) && p.source_profile is Some),
    decreases part.len(),
{
    if part.len() > 0 {
        law_refresh_renews_child_profiles(es, part.drop_last());
        let prev = refresh_steps(es, part.drop_last());
        let cur = refresh_steps(es, part);
        assert forall|k: int| 0 <= k < cur.len() implies (lookup(es, #[trigger] cur[k]) matches Some(p)
            && p.source_profile is Some) by {
            if k < prev.len() {
                assert(cur[k] == prev[k]);
            }
        }
    }
}

/// `create` requests nothing for a profile whose session exists.
pub proof fn law_create_existing_session(es: Seq<EntryView>, name: Seq<char>)
    requires
        has_name(es, session_name(name)),
    ensures
        create_outcome(es, name) == Ok::<PlanView, CreateFault>(
            PlanView::AlreadyExists { session: session_name(name) },
        ),
{
}


/// The profiles that `clean all` keeps are among the profiles it was given,
/// and keep names that the config file can hold apart.
proof fn lemma_non_sessions_writable(es: Seq<EntryView>)
    requires
        writable(es),
    ensures
        writable(non_sessions(es)),
        forall|j: int| 0 <= j < non_sessions(es).len() ==> es.contains(#[trigger] non_sessions(es)[j]),
    decreases es.len(),
{
    if es.len() > 0 {
        let pre = es.drop_last();
        let l = es.last();
        assert(l == es[es.len() - 1]);
        assert forall|a: int, b: int| 0 <= a < pre.len() && 0 <= b < pre.len() && a != b implies #[trigger] pre[a].0
            != #[trigger] pre[b].0 by {
            assert(pre[a] == es[a] && pre[b] == es[b]);
        }
        assert forall|i: int| 0 <= i < pre.len() implies valid_name(#[trigger] pre[i].0) && valid_profile(pre[i].1) by {
            assert(pre[i] == es[i]);
        }
        lemma_non_sessions_writable(pre);
        let pns = non_sessions(pre);
        let ns = non_sessions(es);
        assert forall|j: int| 0 <= j < pns.len() implies es.contains(#[trigger] pns[j]) by {
            let k = choose|k: int| 0 <= k < pre.len() && pre[k] == pns[j];
            assert(es[k] == pre[k]);
        }
        if !is_session(l.0) {
            assert(ns == pns.push(l));
            assert forall|j: int| 0 <= j < pns.len() implies #[trigger] pns[j].0 != l.0 by {
                let k = choose|k: int| 0 <= k < pre.len() && pre[k] == pns[j];
                assert(es[k] == pre[k]);
                assert(es[k].0 != es[es.len() - 1].0);
            }
            assert forall|a: int, b: int| 0 <= a < ns.len() && 0 <= b < ns.len() && a != b implies #[trigger] ns[a].0
                != #[trigger] ns[b].0 by {
                if a < pns.len() && b < pns.len() {
                    assert(ns[a] == pns[a] && ns[b] == pns[b]);
                } else if a < pns.len() {
                    assert(ns[a] == pns[a] && ns[b] == l);
                } else {
                    assert(ns[b] == pns[b] && ns[a] == l);
                }
            }
            assert forall|i: int| 0 <= i < ns.len() implies valid_name(#[trigger] ns[i].0) && valid_profile(ns[i].1) by {
                if i < pns.len() {
                    assert(ns[i] == pns[i]);
                } else {
                    assert(ns[i] == l);
                }
            }
            assert forall|j: int| 0 <= j < ns.len() implies es.contains(#[trigger] ns[j]) by {
                if j < pns.len() {
                    assert(ns[j] == pns[j]);
                } else {
                    assert(ns[j] == es[es.len() - 1]);
                }
            }
        } else {
            assert(ns == pns);
        }
    } else {
        assert(non_sessions(es) =~= Seq::<EntryView>::empty());
    }
}

/// After `clean all` on profiles that the config file can hold, the saved
/// text loads as the profiles kept, none of them a session.
pub proof fn law_clean_all_then_load(es: Seq<EntryView>)
    requires
        writable(es),
    ensures
        parse_config(config_text(non_sessions(es))) == Some(non_sessions(es)),
        forall|i: int| 0 <= i < non_sessions(es).len() ==> !is_session(#[trigger] non_sessions(es)[i].0),
{
    lemma_non_sessions_writable(es);
    lemma_config_roundtrip(non_sessions(es));
    law_clean_all(es);
}


/// With distinct names, the profile found under a name is the one at the
/// only position holding that name.
proof fn lemma_lookup_at(es: Seq<EntryView>, k: int)
    requires
        distinct_names(es),
        0 <= k < es.len(),
    ensures
        lookup(es, es[k].0) == Some(es[k].1),
{
    let n = es[k].0;
    assert(has_name(es, n));
    let j = name_index(es, n);
    assert(es[j].0 == n);
}

/// Inserting a profile: reading its name gives it, every other name reads
/// as before, and names stay distinct.
pub proof fn law_insert_then_lookup(es: Seq<EntryView>, name: Seq<char>, p: ProfileView, other: Seq<char>)
    requires
        distinct_names(es),
        other != name,
    ensures
        lookup(insert_entry(es, name, p), name) == Some(p),
        lookup(insert_entry(es, name, p), other) == lookup(es, other),
        distinct_names(insert_entry(es, name, p)),
{
    let r = insert_entry(es, name, p);
    let k = if has_name(es, name) { name_index(es, name) } else { es.len() as int };
    if has_name(es, name) {
        assert(es[k].0 == name);
    }
    assert(r.len() == if has_name(es, name) { es.len() } else { es.len() + 1 });
    assert(r[k] == (name, p));
    assert forall|i: int| 0 <= i < r.len() && i != k implies #[trigger] r[i] == es[i] by {}
    assert forall|a: int, b: int| 0 <= a < r.len() && 0 <= b < r.len() && a != b implies #[trigger] r[a].0
        != #[trigger] r[b].0 by {
        if a != k && b != k {
            assert(r[a] == es[a] && r[b] == es[b]);
        } else if a == k {
            assert(r[b] == es[b]);
            if has_name(es, name) {
                assert(es[b].0 != es[k].0);
            } else {
                assert(es[b].0 != name);
            }
        } else {
            assert(r[a] == es[a]);
            if has_name(es, name) {
                assert(es[a].0 != es[k].0);
            } else {
                assert(es[a].0 != name);
            }
        }
    }
    lemma_lookup_at(r, k);
    if has_name(es, other) {
        let j = name_index(es, other);
        assert(es[j].0 == other);
        assert(j != k);
        assert(r[j] == es[j]);
        lemma_lookup_at(r, j);
        lemma_lookup_at(es, j);
    } else {
        if has_name(r, other) {
            let j = choose|j: int| 0 <= j < r.len() && #[trigger] r[j].0 == other;
            assert(j != k);
            assert(r[j] == es[j]);
        }
    }
}

/// Removing a profile: its name no longer reads, every other name reads as
/// before.
pub proof fn law_remove_then_lookup(es: Seq<EntryView>, name: Seq<char>, other: Seq<char>)
    requires
        distinct_names(es),
        other != name,
    ensures
        lookup(remove_entry(es, name), name) is None,
        lookup(remove_entry(es, name), other) == lookup(es, other),
        distinct_names(remove_entry(es, name)),
{
    let r = remove_entry(es, name);
    if has_name(es, name) {
        let k = name_index(es, name);
        assert(es[k].0 == name);
        assert forall|i: int| 0 <= i < r.len() implies #[trigger] r[i] == es[if i < k { i } else { i + 1 }] by {}
        assert forall|a: int, b: int| 0 <= a < r.len() && 0 <= b < r.len() && a != b implies #[trigger] r[a].0
            != #[trigger] r[b].0 by {
            let a2 = if a < k { a } else { a + 1 };
            let b2 = if b < k { b } else { b + 1 };
            assert(r[a] == es[a2] && r[b] == es[b2]);
        }
        if has_name(r, name) {
            let j = choose|j: int| 0 <= j < r.len() && #[trigger] r[j].0 == name;
            let j2 = if j < k { j } else { j + 1 };
            assert(r[j] == es[j2]);
        }
        if has_name(es, other) {
            let j = name_index(es, other);
            assert(es[j].0 == other);
            let j1 = if j < k { j } else { j - 1 };
            assert(r[j1] == es[j]);
            lemma_lookup_at(r, j1);
            lemma_lookup_at(es, j);
        } else if has_name(r, other) {
            let j = choose|j: int| 0 <= j < r.len() && #[trigger] r[j].0 == other;
            let j2 = if j < k { j } else { j + 1 };
            assert(r[j] == es[j2]);
        }
    }
}

} // verus!
