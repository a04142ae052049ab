//! The `.env` file that keeps the GitHub token between runs.

use vstd::prelude::*;
use crate::text::{
    after_prefix, begins_with, is_ws, lines, lines_from, lines_of, starts_with, strip_cr, trim,
    trim_end, trim_start, trimmed, views,
};

verus! {

/// The key of the token line, `GITHUB_TOKEN=`.
pub open spec fn token_key() -> Seq<char> {
    "GITHUB_TOKEN="@
}

/// The token read from the given lines: the rest of the first line that
/// begins with the key, trimmed; empty when no line does.
pub open spec fn token_in_lines(ls: Seq<Seq<char>>) -> Seq<char>
    decreases ls.len(),
{
    if ls.len() == 0 {
        seq![]
    } else if starts_with(ls[0], token_key()) {
        trim(ls[0].skip(token_key().len() as int))
    } else {
        token_in_lines(ls.drop_first())
    }
}

/// The token that a file with these contents holds.
pub open spec fn token_in_file(content: Seq<char>) -> Seq<char> {
    token_in_lines(lines(content))
}

/// The line that saving `token` writes: the key and the trimmed token.
pub open spec fn token_line(token: Seq<char>) -> Seq<char> {
    token_key() + trim(token)
}

/// The lines with the first line that begins with the key replaced by `tl`,
/// or with `tl` added at the end when no line begins with the key.
pub open spec fn with_token_line(ls: Seq<Seq<char>>, tl: Seq<char>) -> Seq<Seq<char>>
    decreases ls.len(),
{
    if ls.len() == 0 {
        seq![tl]
    } else if starts_with(ls[0], token_key()) {
        seq![tl] + ls.drop_first()
    } else {
        seq![ls[0]] + with_token_line(ls.drop_first(), tl)
    }
}

/// The lines, each followed by `\n`.
pub open spec fn terminated(ls: Seq<Seq<char>>) -> Seq<char>
    decreases ls.len(),
{
    if ls.len() == 0 {
        seq![]
    } else {
        ls[0] + seq!['\n'] + terminated(ls.drop_first())
    }
}

/// The lines of the file as it stood before saving: none when there was
/// no file.
pub open spec fn existing_lines(existing: Option<Seq<char>>) -> Seq<Seq<char>> {
    match existing {
        Some(c) => lines(c),
        None => seq![],
    }
}

/// The file that saving `token` writes over `existing`: its lines with the
/// token line put in place, each ended by `\n`.
pub open spec fn saved_env_file(existing: Option<Seq<char>>, token: Seq<char>) -> Seq<char> {
    terminated(with_token_line(existing_lines(existing), token_line(token)))
}

/// The token that a `.env` file holds, as the token loader reads it: the
/// trimmed rest of the first line that begins with `GITHUB_TOKEN=`, or
/// the empty string.
pub fn token_from_env_file(content: &str) -> (r: String)
    ensures
        r@ == token_in_file(content@),
{
    let ls = lines_of(content);
    let key = "GITHUB_TOKEN=";
    let mut i: usize = 0;
    assert(views(ls@).skip(0) =~= views(ls@));
    while i < ls.len()
        invariant
            i <= ls.len(),
            key@ == token_key(),
            views(ls@) == lines(content@),
            token_in_lines(views(ls@)) == token_in_lines(views(ls@).skip(i as int)),
        decreases ls.len() - i,
    {
        let ghost rest = views(ls@).skip(i as int);
        assert(rest.len() > 0);
        assert(rest[0] == ls@[i as int]@);
        assert(rest.drop_first() =~= views(ls@).skip(i + 1));
        match after_prefix(ls[i].as_str(), key) {
            Some(val) => {
                assert(starts_with(rest[0], token_key()));
                assert(token_in_lines(rest) == trim(rest[0].skip(token_key().len() as int)));
                assert(val@ == rest[0].skip(token_key().len() as int));
                return trimmed(val.as_str());
            },
            None => {},
        }
        i = i + 1;
    }
    assert(views(ls@).skip(i as int) =~= Seq::<Seq<char>>::empty());
    String::new()
}

/// The lines, each followed by `\n`, as one string.
fn join_terminated(ls: &Vec<String>) -> (r: String)
    ensures
        r@ == terminated(views(ls@)),
{
    let mut out = String::new();
    let mut i: usize = 0;
    proof {
        reveal_strlit("\n");
        assert(views(ls@).take(0) =~= Seq::<Seq<char>>::empty());
    }
    while i < ls.len()
        invariant
            i <= ls.len(),
            out@ == terminated(views(ls@).take(i as int)),
            "\n"@ == seq!['\n'],
        decreases ls.len() - i,
    {
        out.append(ls[i].as_str());
        out.append("\n");
        proof {
            lemma_terminated_push(views(ls@).take(i as int), ls@[i as int]@);
            assert(views(ls@).take(i as int).push(ls@[i as int]@) =~= views(ls@).take(i + 1));
        }
        i = i + 1;
    }
    assert(views(ls@).take(i as int) =~= views(ls@));
    out
}

/// The `.env` file after saving `token`, as the token saver writes it:
/// the lines of the existing file (none when there is no file), with the
/// first line that begins with `GITHUB_TOKEN=` replaced by
/// `GITHUB_TOKEN=` and the trimmed token, or that line added at the end
/// when there is none; each line ended by `\n`.
pub fn updated_env_file(existing: Option<&str>, token: &str) -> (r: String)
    ensures
        r@ == saved_env_file(
            match existing {
                Some(c) => Some(c@),
                None => None,
            },
            token@,
        ),
{
    let ghost ex = match existing {
        Some(c) => Some(c@),
        None => None,
    };
    let mut ls: Vec<String> = match existing {
        Some(c) => lines_of(c),
        None => Vec::new(),
    };
    assert(views(ls@) == existing_lines(ex));
    let key = "GITHUB_TOKEN=";
    let t = trimmed(token);
    let mut tl = String::from_str(key);
    tl.append(t.as_str());
    let ghost old_lines = views(ls@);
    let ghost tlv = tl@;
    assert(tlv == token_line(token@));
    let mut i: usize = 0;
    let mut found = false;
    assert(old_lines.take(0) =~= Seq::<Seq<char>>::empty());
    assert(old_lines.skip(0) =~= old_lines);
    assert(old_lines.take(0) + with_token_line(old_lines.skip(0), tlv) =~= with_token_line(
        old_lines,
        tlv,
    ));
    while i < ls.len() && !found
        invariant
            i <= ls.len(),
            key@ == token_key(),
            tl@ == tlv,
            !found ==> views(ls@) == old_lines,
            !found ==> with_token_line(old_lines, tlv) == old_lines.take(i as int)
                + with_token_line(old_lines.skip(i as int), tlv),
            found ==> views(ls@) == with_token_line(old_lines, tlv),
        decreases ls.len() - i + (if found { 0int } else { 1int }),
    {
        if begins_with(ls[i].as_str(), key) {
            let ghost rest = old_lines.skip(i as int);
            assert(rest[0] == old_lines[i as int]);
            ls.set(i, tl.clone());
            proof {
                assert(rest.drop_first() =~= old_lines.skip(i + 1));
                assert(views(ls@) =~= old_lines.take(i as int) + (seq![tlv] + rest.drop_first()));
            }
            found = true;
        } else {
            proof {
                let rest = old_lines.skip(i as int);
                assert(rest[0] == old_lines[i as int]);
                assert(rest.drop_first() =~= old_lines.skip(i + 1));
                assert(old_lines.take(i as int) + (seq![rest[0]] + with_token_line(
                    rest.drop_first(),
                    tlv,
                )) =~= old_lines.take(i + 1) + with_token_line(old_lines.skip(i + 1), tlv));
            }
            i = i + 1;
        }
    }
    if !found {
        let ghost before = views(ls@);
        ls.push(tl);
        proof {
            assert(old_lines.skip(i as int) =~= Seq::<Seq<char>>::empty());
            assert(old_lines.take(i as int) =~= old_lines);
            assert(views(ls@) =~= before.push(tlv));
            assert(views(ls@) =~= old_lines + seq![tlv]);
        }
    }
    join_terminated(&ls)
}

proof fn lemma_terminated_push(ls: Seq<Seq<char>>, x: Seq<char>)
    ensures
        terminated(ls.push(x)) == terminated(ls) + x + seq!['\n'],
    decreases ls.len(),
{
    if ls.len() == 0 {
        assert(ls.push(x).drop_first() =~= Seq::<Seq<char>>::empty());
        assert(ls.push(x)[0] == x);
        assert(terminated(Seq::<Seq<char>>::empty()) == Seq::<char>::empty());
        assert(terminated(ls.push(x)) =~= x + seq!['\n']);
        assert(terminated(ls) + x + seq!['\n'] =~= x + seq!['\n']);
    } else {
        assert(ls.push(x).drop_first() =~= ls.drop_first().push(x));
        lemma_terminated_push(ls.drop_first(), x);
        assert(terminated(ls.push(x)) =~= terminated(ls) + x + seq!['\n']);
    }
}

/// Reading on past a line without `\n` adds it to the line read so far.
proof fn lemma_lines_line(x: Seq<char>, rest: Seq<char>, cur: Seq<char>)
    requires
        !x.contains('\n'),
    ensures
        lines_from(x + seq!['\n'] + rest, cur) == seq![strip_cr(cur + x)] + lines_from(
            rest,
            seq![],
        ),
    decreases x.len(),
{
    let s = x + seq!['\n'] + rest;
    if x.len() == 0 {
        assert(s[0] == '\n');
        assert(s.drop_first() =~= rest);
        assert(cur + x =~= cur);
    } else {
        assert(s[0] == x[0]);
        assert(x[0] != '\n') by {
            assert(x.contains(x[0]));
        }
        let x2 = x.drop_first();
        assert(!x2.contains('\n')) by {
            if x2.contains('\n') {
                let k = choose|k: int| 0 <= k < x2.len() && x2[k] == '\n';
                assert(x[k + 1] == '\n');
            }
        }
        assert(s.drop_first() =~= x2 + seq!['\n'] + rest);
        lemma_lines_line(x2, rest, cur.push(x[0]));
        assert(cur.push(x[0]) + x2 =~= cur + x);
    }
}

/// Lines without `\n`, each ended by `\n`, split back into themselves,
/// less the one `\r` that may end each.
proof fn lemma_lines_terminated(ls: Seq<Seq<char>>)
    requires
        forall|i: int| 0 <= i < ls.len() ==> !(#[trigger] ls[i]).contains('\n'),
    ensures
        lines(terminated(ls)) == ls.map_values(|l: Seq<char>| strip_cr(l)),
    decreases ls.len(),
{
    if ls.len() == 0 {
        assert(ls.map_values(|l: Seq<char>| strip_cr(l)) =~= Seq::<Seq<char>>::empty());
    } else {
        let rest = ls.drop_first();
        assert(forall|i: int| 0 <= i < rest.len() ==> rest[i] == ls[i + 1]);
        lemma_lines_terminated(rest);
        assert(!ls[0].contains('\n'));
        lemma_lines_line(ls[0], terminated(rest), seq![]);
        assert(seq![] + ls[0] =~= ls[0]);
        assert(ls.map_values(|l: Seq<char>| strip_cr(l)) =~= seq![strip_cr(ls[0])]
            + rest.map_values(|l: Seq<char>| strip_cr(l)));
    }
}

/// No line that `lines_from` yields holds `\n`.
proof fn lemma_lines_no_newline(s: Seq<char>, cur: Seq<char>)
    requires
        !cur.contains('\n'),
    ensures
        forall|i: int|
            0 <= i < lines_from(s, cur).len() ==> !(#[trigger] lines_from(s, cur)[i]).contains(
                '\n',
            ),
    decreases s.len(),
{
    if s.len() == 0 {
        if cur.len() > 0 {
            assert(lines_from(s, cur) =~= seq![cur]);
        }
    } else if s[0] == '\n' {
        lemma_lines_no_newline(s.drop_first(), seq![]);
        let r = lines_from(s.drop_first(), seq![]);
        assert(!strip_cr(cur).contains('\n')) by {
            if strip_cr(cur).contains('\n') {
                let k = choose|k: int| 0 <= k < strip_cr(cur).len() && strip_cr(cur)[k] == '\n';
                assert(cur[k] == '\n');
            }
        }
        assert forall|i: int| 0 <= i < lines_from(s, cur).len() implies !(#[trigger] lines_from(
            s,
            cur,
        )[i]).contains('\n') by {
            if i > 0 {
                assert(lines_from(s, cur)[i] == r[i - 1]);
            }
        }
    } else {
        let c2 = cur.push(s[0]);
        assert(!c2.contains('\n')) by {
            if c2.contains('\n') {
                let k = choose|k: int| 0 <= k < c2.len() && c2[k] == '\n';
                if k < cur.len() {
                    assert(cur[k] == '\n');
                }
            }
        }
        lemma_lines_no_newline(s.drop_first(), c2);
        assert(lines_from(s, cur) == lines_from(s.drop_first(), c2));
    }
}

/// The first character of a trimmed string is not whitespace.
proof fn lemma_trim_start_front(s: Seq<char>)
    ensures
        trim_start(s).len() == 0 || !is_ws(trim_start(s)[0]),
        trim_start(s).len() <= s.len(),
        trim_start(s) == s.skip(s.len() - trim_start(s).len()),
    decreases s.len(),
{
    if s.len() > 0 && is_ws(s[0]) {
        lemma_trim_start_front(s.drop_first());
        assert(s.drop_first().skip(s.drop_first().len() - trim_start(s).len()) =~= s.skip(
            s.len() - trim_start(s).len(),
        ));
    } else {
        assert(s.skip(0) =~= s);
    }
}

/// The last character of a string trimmed at its end is not whitespace,
/// and what is left is a prefix.
proof fn lemma_trim_end_back(s: Seq<char>)
    ensures
        trim_end(s).len() == 0 || !is_ws(trim_end(s).last()),
        trim_end(s).len() <= s.len(),
        trim_end(s) == s.take(trim_end(s).len() as int),
    decreases s.len(),
{
    if s.len() > 0 && is_ws(s.last()) {
        lemma_trim_end_back(s.drop_last());
        assert(s.drop_last().take(trim_end(s).len() as int) =~= s.take(trim_end(s).len() as int));
    } else {
        assert(s.take(s.len() as int) =~= s);
    }
}

/// Trimming twice trims no more than once.
proof fn lemma_trim_idempotent(s: Seq<char>)
    ensures
        trim(trim(s)) == trim(s),
        trim(s).len() == 0 || (!is_ws(trim(s)[0]) && !is_ws(trim(s).last())),
{
    let u = trim_start(s);
    lemma_trim_start_front(s);
    lemma_trim_end_back(u);
    let v = trim_end(u);
    if v.len() > 0 {
        assert(v[0] == u[0]);
    }
    assert(trim_start(v) == v);
    assert(trim_end(v) == v);
}

/// A line less its last `\r` begins with the key only if the line does.
proof fn lemma_strip_cr_prefix(l: Seq<char>, p: Seq<char>)
    requires
        starts_with(strip_cr(l), p),
    ensures
        starts_with(l, p),
{
    if l.len() > 0 && l.last() == '\r' {
        assert(l.take(p.len() as int) =~= l.drop_last().take(p.len() as int));
    }
}

proof fn lemma_token_in_replaced(ls: Seq<Seq<char>>, tl: Seq<char>)
    requires
        starts_with(tl, token_key()),
        strip_cr(tl) == tl,
    ensures
        token_in_lines(with_token_line(ls, tl).map_values(|l: Seq<char>| strip_cr(l)))
            == trim(tl.skip(token_key().len() as int)),
    decreases ls.len(),
{
    let w = with_token_line(ls, tl);
    let m = w.map_values(|l: Seq<char>| strip_cr(l));
    if ls.len() == 0 {
        assert(m[0] == tl);
    } else if starts_with(ls[0], token_key()) {
        assert(m[0] == tl);
    } else {
        let w2 = with_token_line(ls.drop_first(), tl);
        lemma_token_in_replaced(ls.drop_first(), tl);
        assert(m[0] == strip_cr(ls[0]));
        if starts_with(strip_cr(ls[0]), token_key()) {
            lemma_strip_cr_prefix(ls[0], token_key());
        }
        assert(m.drop_first() =~= w2.map_values(|l: Seq<char>| strip_cr(l)));
    }
}

/// Saving a token and then loading it gives back the trimmed token,
/// whatever the file held before (or when there was no file), as long as
/// the trimmed token is a single line.
pub proof fn lemma_load_after_save(existing: Option<Seq<char>>, token: Seq<char>)
    requires
        !trim(token).contains('\n'),
    ensures
        token_in_file(saved_env_file(existing, token)) == trim(token),
{
    let tl = token_line(token);
    let t = trim(token);
    reveal_strlit("GITHUB_TOKEN=");
    lemma_save_keeps_other_lines(existing, token);
    lemma_trim_idempotent(token);
    assert(tl.take(13) =~= token_key());
    if t.len() > 0 {
        assert(tl.last() == t.last());
    } else {
        assert(tl.last() == '=');
    }
    assert(strip_cr(tl) == tl);
    lemma_token_in_replaced(existing_lines(existing), tl);
    assert(tl.skip(13) =~= t);
}

proof fn lemma_with_token_line_no_newline(ls: Seq<Seq<char>>, tl: Seq<char>)
    requires
        forall|i: int| 0 <= i < ls.len() ==> !(#[trigger] ls[i]).contains('\n'),
        !tl.contains('\n'),
    ensures
        forall|i: int|
            0 <= i < with_token_line(ls, tl).len() ==> !(#[trigger] with_token_line(
                ls,
                tl,
            )[i]).contains('\n'),
    decreases ls.len(),
{
    if ls.len() > 0 {
        let rest = ls.drop_first();
        assert(forall|i: int| 0 <= i < rest.len() ==> rest[i] == ls[i + 1]);
        lemma_with_token_line_no_newline(rest, tl);
        let w = with_token_line(ls, tl);
        if starts_with(ls[0], token_key()) {
            assert forall|i: int| 0 <= i < w.len() implies !(#[trigger] w[i]).contains('\n') by {
                if i > 0 {
                    assert(w[i] == rest[i - 1]);
                }
            }
        } else {
            let w2 = with_token_line(rest, tl);
            assert forall|i: int| 0 <= i < w.len() implies !(#[trigger] w[i]).contains('\n') by {
                if i > 0 {
                    assert(w[i] == w2[i - 1]);
                }
            }
        }
    }
}


/// Saving leaves the other lines of the file as they were (less the one
/// `\r` that may end a line): read back, the file holds the old lines with
/// the token line put in place.
pub proof fn lemma_save_keeps_other_lines(existing: Option<Seq<char>>, token: Seq<char>)
    requires
        !trim(token).contains('\n'),
    ensures
        lines(saved_env_file(existing, token)) == with_token_line(
            existing_lines(existing),
            token_line(token),
        ).map_values(|l: Seq<char>| strip_cr(l)),
{
    let tl = token_line(token);
    let t = trim(token);
    reveal_strlit("GITHUB_TOKEN=");
    match existing {
        Some(c) => {
            lemma_lines_no_newline(c, seq![]);
        },
        None => {},
    }
    assert(!tl.contains('\n')) by {
        if tl.contains('\n') {
            let k = choose|k: int| 0 <= k < tl.len() && tl[k] == '\n';
            if k >= 13 {
                assert(t[k - 13] == '\n');
            }
        }
    }
    lemma_with_token_line_no_newline(existing_lines(existing), tl);
    lemma_lines_terminated(with_token_line(existing_lines(existing), tl));
}

/// Putting the token line in place again changes nothing.
proof fn lemma_with_token_line_twice(ls: Seq<Seq<char>>, tl: Seq<char>)
    requires
        starts_with(tl, token_key()),
    ensures
        with_token_line(with_token_line(ls, tl), tl) == with_token_line(ls, tl),
    decreases ls.len(),
{
    let w = with_token_line(ls, tl);
    if ls.len() == 0 {
        assert(w[0] == tl);
        assert(w.drop_first() =~= Seq::<Seq<char>>::empty());
        assert(seq![tl] + w.drop_first() =~= w);
    } else if starts_with(ls[0], token_key()) {
        assert(w[0] == tl);
        assert(w.drop_first() =~= ls.drop_first());
        assert(seq![tl] + w.drop_first() =~= w);
    } else {
        let w2 = with_token_line(ls.drop_first(), tl);
        lemma_with_token_line_twice(ls.drop_first(), tl);
        assert(w[0] == ls[0]);
        assert(w.drop_first() =~= w2);
    }
}

/// Lines that no `\r` ends, with a token line that none ends either, are
/// left alone by dropping a last `\r`.
proof fn lemma_with_token_line_no_cr(ls: Seq<Seq<char>>, tl: Seq<char>)
    requires
        forall|i: int| 0 <= i < ls.len() ==> strip_cr(#[trigger] ls[i]) == ls[i],
        strip_cr(tl) == tl,
    ensures
        with_token_line(ls, tl).map_values(|l: Seq<char>| strip_cr(l)) == with_token_line(ls, tl),
    decreases ls.len(),
{
    let w = with_token_line(ls, tl);
    if ls.len() > 0 {
        let rest = ls.drop_first();
        assert(forall|i: int| 0 <= i < rest.len() ==> rest[i] == ls[i + 1]);
        lemma_with_token_line_no_cr(rest, tl);
        if starts_with(ls[0], token_key()) {
            assert forall|i: int| 0 <= i < w.len() implies strip_cr(#[trigger] w[i]) == w[i] by {
                if i > 0 {
                    assert(w[i] == rest[i - 1]);
                }
            }
        } else {
            let w2 = with_token_line(rest, tl);
            assert(w2.map_values(|l: Seq<char>| strip_cr(l)) == w2);
            assert forall|i: int| 0 <= i < w.len() implies strip_cr(#[trigger] w[i]) == w[i] by {
                if i > 0 {
                    assert(w[i] == w2[i - 1]);
                    assert(w2.map_values(|l: Seq<char>| strip_cr(l))[i - 1] == strip_cr(w2[i - 1]));
                }
            }
        }
    }
    assert(w.map_values(|l: Seq<char>| strip_cr(l)) =~= w);
}

/// Saving the same token twice leaves the file as the first save wrote it,
/// as long as the trimmed token is a single line and no line of the file
/// before ended with `\r`.
pub proof fn lemma_save_twice_same(existing: Option<Seq<char>>, token: Seq<char>)
    requires
        !trim(token).contains('\n'),
        forall|i: int|
            0 <= i < existing_lines(existing).len() ==> strip_cr(#[trigger] existing_lines(existing)[i])
                == existing_lines(existing)[i],
    ensures
        saved_env_file(Some(saved_env_file(existing, token)), token) == saved_env_file(existing, token),
{
    let tl = token_line(token);
    let t = trim(token);
    let ls = existing_lines(existing);
    reveal_strlit("GITHUB_TOKEN=");
    lemma_trim_idempotent(token);
    assert(tl.take(13) =~= token_key());
    if t.len() > 0 {
        assert(tl.last() == t.last());
    } else {
        assert(tl.last() == '=');
    }
    assert(strip_cr(tl) == tl);
    lemma_save_keeps_other_lines(existing, token);
    lemma_with_token_line_no_cr(ls, tl);
    lemma_with_token_line_twice(ls, tl);
    assert(existing_lines(Some(saved_env_file(existing, token))) == with_token_line(ls, tl));
}

} // verus!
