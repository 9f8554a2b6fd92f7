//! Line-oriented read-modify-write over a flat `key=value` properties file:
//! removal of the lines owned by this tool (the managed keys) followed by
//! appending freshly computed lines, and lookup of a single key's value.

use vstd::prelude::*;

verus! {

use vstd::string::StrSliceExecFns;
use vstd::string::StringExecFns;
use crate::text::{
    starts_with, starts_with_str, trim_spec, trim_front, trim_back, is_ws, trim_of,
    lemma_trim_front_idx,
};

/// The managed session-cookie key.
pub open spec fn spec_cookie_key() -> Seq<char> {
    "session.cookie.name"@
}

/// The managed database-URL key.
pub open spec fn spec_jdbc_key() -> Seq<char> {
    "jdbc.default.url"@
}

/// A line owned by this tool: its trimmed content starts with one of the
/// managed keys. This is deliberately a prefix match, not an exact key
/// match, mirroring how the files are rewritten on disk.
pub open spec fn is_managed_line(l: Seq<char>) -> bool {
    starts_with(trim_spec(l), spec_cookie_key()) || starts_with(trim_spec(l), spec_jdbc_key())
}

/// The predicate selecting the lines an upsert keeps.
pub open spec fn keep_pred() -> spec_fn(Seq<char>) -> bool {
    |l: Seq<char>| !is_managed_line(l)
}

/// The input's lines with every managed line removed, order kept.
pub open spec fn strip_spec(ls: Seq<Seq<char>>) -> Seq<Seq<char>> {
    ls.filter(keep_pred())
}

/// One freshly computed `key=value` line.
pub open spec fn spec_line(k: Seq<char>, v: Seq<char>) -> Seq<char> {
    k + "="@ + v
}

/// The lines appended for a replacement set, in the caller's order.
pub open spec fn reps_lines(rs: Seq<(Seq<char>, Seq<char>)>) -> Seq<Seq<char>> {
    rs.map_values(|p: (Seq<char>, Seq<char>)| spec_line(p.0, p.1))
}

/// The result of an upsert: managed lines removed, one line per
/// replacement appended at the end, in the caller's order.
pub open spec fn upsert_spec(ls: Seq<Seq<char>>, rs: Seq<(Seq<char>, Seq<char>)>) -> Seq<
    Seq<char>,
> {
    strip_spec(ls) + reps_lines(rs)
}

/// Whether this line is owned by the tool's managed keys.
pub fn is_managed(line: &str) -> (r: bool)
    ensures
        r == is_managed_line(line@),
{
    let t: &str = trim_of(line);
    starts_with_str(t, "session.cookie.name") || starts_with_str(t, "jdbc.default.url")
}

proof fn lemma_strip_step(ls: Seq<Seq<char>>, i: int)
    requires
        0 <= i < ls.len(),
    ensures
        strip_spec(ls.take(i + 1)) == if !is_managed_line(ls[i]) {
            strip_spec(ls.take(i)).push(ls[i])
        } else {
            strip_spec(ls.take(i))
        },
{
    reveal(Seq::filter);
    assert(ls.take(i + 1).drop_last() =~= ls.take(i));
    assert(ls.take(i + 1).last() == ls[i]);
}

/// Removes every line whose trimmed content starts with a managed key, then
/// appends one `key=value` line per replacement, in the given order. The
/// function is deterministic, and idempotent for the managed replacement
/// sets the workflows use: each appended line is then itself a managed
/// line, so a second application removes and re-adds it unchanged
/// (`lemma_upsert_idempotent`).
pub fn upsert(lines: &Vec<String>, replacements: &Vec<(String, String)>) -> (r: Vec<String>)
    ensures
        r.deep_view() == upsert_spec(lines.deep_view(), replacements.deep_view()),
{
    let ghost ls = lines.deep_view();
    let ghost rs = replacements.deep_view();
    let mut out: Vec<String> = Vec::new();
    let mut i: usize = 0;
    proof {
        assert(out.deep_view() =~= strip_spec(ls.take(0)));
    }
    while i < lines.len()
        invariant
            i <= lines.len(),
            ls == lines.deep_view(),
            out.deep_view() == strip_spec(ls.take(i as int)),
        decreases lines.len() - i,
    {
        let line: &String = &lines[i];
        proof {
            assert(line@ == ls[i as int]);
            lemma_strip_step(ls, i as int);
        }
        if !is_managed(line.as_str()) {
            let ghost prev = out.deep_view();
            out.push(line.clone());
            proof {
                assert(out.deep_view() =~= prev.push(line@));
            }
        }
        i += 1;
    }
    proof {
        assert(ls.take(lines.len() as int) =~= ls);
    }
    let mut j: usize = 0;
    proof {
        assert(rs.take(0) =~= Seq::<(Seq<char>, Seq<char>)>::empty());
        assert(out.deep_view() =~= strip_spec(ls) + reps_lines(rs.take(0)));
    }
    while j < replacements.len()
        invariant
            j <= replacements.len(),
            ls == lines.deep_view(),
            rs == replacements.deep_view(),
            out.deep_view() == strip_spec(ls) + reps_lines(rs.take(j as int)),
        decreases replacements.len() - j,
    {
        let key: &String = &replacements[j].0;
        let value: &String = &replacements[j].1;
        let built: String = key.clone().concat("=").concat(value.as_str());
        proof {
            assert(built@ == spec_line(rs[j as int].0, rs[j as int].1));
        }
        let ghost prev = out.deep_view();
        out.push(built);
        proof {
            assert(out.deep_view() =~= prev.push(built@));
            assert(reps_lines(rs.take(j + 1)) =~= reps_lines(rs.take(j as int)).push(
                spec_line(rs[j as int].0, rs[j as int].1),
            ));
            assert(out.deep_view() =~= strip_spec(ls) + reps_lines(rs.take(j + 1)));
        }
        j += 1;
    }
    proof {
        assert(rs.take(replacements.len() as int) =~= rs);
    }
    out
}

/// Removes the managed lines and adds nothing: the reset of the managed
/// keys, restoring "no override" semantics.
pub fn strip_managed(lines: &Vec<String>) -> (r: Vec<String>)
    ensures
        r.deep_view() == strip_spec(lines.deep_view()),
{
    let empty: Vec<(String, String)> = Vec::new();
    let r = upsert(lines, &empty);
    proof {
        assert(r.deep_view() =~= strip_spec(lines.deep_view()));
    }
    r
}

/// Stripping the managed keys leaves a file with no managed line, and every
/// non-managed input line survives; `strip_spec` is a filter, so the
/// survivors keep their original relative order.
pub proof fn lemma_strip_managed_complete(ls: Seq<Seq<char>>)
    ensures
        forall|i: int|
            0 <= i < strip_spec(ls).len() ==> !is_managed_line(#[trigger] strip_spec(ls)[i]),
        forall|i: int|
            0 <= i < ls.len() && !is_managed_line(ls[i]) ==> strip_spec(ls).contains(#[trigger] ls[i]),
{
    assert forall|i: int| 0 <= i < strip_spec(ls).len() implies !is_managed_line(
        #[trigger] strip_spec(ls)[i],
    ) by {
        ls.lemma_filter_pred(keep_pred(), i);
    }
    assert forall|i: int|
        0 <= i < ls.len() && !is_managed_line(ls[i]) implies strip_spec(ls).contains(
        #[trigger] ls[i],
    ) by {
        ls.lemma_filter_contains(keep_pred(), i);
    }
}

proof fn lemma_trim_back_past(l: Seq<char>, m: int)
    requires
        0 <= m < l.len(),
        !is_ws(l[m]),
    ensures
        m < trim_back(l).len() <= l.len(),
        trim_back(l) == l.subrange(0, trim_back(l).len() as int),
    decreases l.len(),
{
    if l.len() > 0 && is_ws(l.last()) {
        lemma_trim_back_past(l.drop_last(), m);
        assert(l.drop_last().subrange(0, trim_back(l).len() as int) =~= l.subrange(
            0,
            trim_back(l).len() as int,
        ));
    } else {
        assert(trim_back(l) =~= l.subrange(0, l.len() as int));
    }
}

/// A freshly written managed line is itself recognised as managed: its
/// trimmed content starts with the key it was written for.
pub proof fn lemma_spec_line_managed(k: Seq<char>, x: Seq<char>)
    requires
        k == spec_cookie_key() || k == spec_jdbc_key(),
    ensures
        starts_with(trim_spec(spec_line(k, x)), k),
        is_managed_line(spec_line(k, x)),
{
    reveal_strlit("session.cookie.name");
    reveal_strlit("jdbc.default.url");
    reveal_strlit("=");
    let l = spec_line(k, x);
    assert(l[0] == k[0]);
    assert(!is_ws(l[0]));
    lemma_trim_front_idx(l, 0);
    assert(trim_front(l) =~= l);
    assert(l[k.len() as int] == '=');
    lemma_trim_back_past(l, k.len() as int);
    let t = trim_back(l);
    assert forall|j: int| 0 <= j < k.len() implies t.subrange(0, k.len() as int)[j] == k[j] by {
        assert(t[j] == l.subrange(0, t.len() as int)[j]);
        assert(l[j] == k[j]);
    }
    assert(t.subrange(0, k.len() as int) =~= k);
    assert(starts_with(trim_spec(l), k));
}

/// Upserting a value `x` for the session-cookie key yields exactly one
/// line carrying that key: the last line, equal to `session.cookie.name=x`.
/// Every other line of the result is a non-managed input line, kept in its
/// original order, and none of them starts with the key.
pub proof fn lemma_upsert_single_cookie_line(ls: Seq<Seq<char>>, x: Seq<char>)
    ensures
        ({
            let r = upsert_spec(ls, seq![(spec_cookie_key(), x)]);
            &&& r.len() == strip_spec(ls).len() + 1
            &&& r.last() == spec_line(spec_cookie_key(), x)
            &&& starts_with(trim_spec(r.last()), spec_cookie_key())
            &&& forall|i: int|
                0 <= i < r.len() - 1 ==> #[trigger] r[i] == strip_spec(ls)[i] && !starts_with(
                    trim_spec(r[i]),
                    spec_cookie_key(),
                )
        }),
{
    let reps = seq![(spec_cookie_key(), x)];
    let r = upsert_spec(ls, reps);
    assert(reps_lines(reps) =~= seq![spec_line(spec_cookie_key(), x)]);
    lemma_spec_line_managed(spec_cookie_key(), x);
    lemma_strip_managed_complete(ls);
    assert forall|i: int| 0 <= i < r.len() - 1 implies #[trigger] r[i] == strip_spec(ls)[i]
        && !starts_with(trim_spec(r[i]), spec_cookie_key()) by {
        assert(r[i] == strip_spec(ls)[i]);
        assert(!is_managed_line(strip_spec(ls)[i]));
    }
}

proof fn lemma_filter_keep_all(s: Seq<Seq<char>>)
    requires
        forall|i: int| 0 <= i < s.len() ==> !is_managed_line(#[trigger] s[i]),
    ensures
        s.filter(keep_pred()) == s,
    decreases s.len(),
{
    reveal(Seq::filter);
    if s.len() > 0 {
        lemma_filter_keep_all(s.drop_last());
        assert(s.filter(keep_pred()) =~= s);
    }
}

proof fn lemma_filter_keep_none(s: Seq<Seq<char>>)
    requires
        forall|i: int| 0 <= i < s.len() ==> is_managed_line(#[trigger] s[i]),
    ensures
        s.filter(keep_pred()) == Seq::<Seq<char>>::empty(),
    decreases s.len(),
{
    reveal(Seq::filter);
    if s.len() > 0 {
        lemma_filter_keep_none(s.drop_last());
    }
}

/// Upserting managed keys is idempotent: when every appended line is
/// itself a managed line, as the configure workflow's lines are,
/// re-applying the same replacement set to an already-upserted file yields
/// the same file.
pub proof fn lemma_upsert_idempotent(ls: Seq<Seq<char>>, rs: Seq<(Seq<char>, Seq<char>)>)
    requires
        forall|i: int|
            0 <= i < rs.len() ==> is_managed_line(spec_line((#[trigger] rs[i]).0, rs[i].1)),
    ensures
        upsert_spec(upsert_spec(ls, rs), rs) == upsert_spec(ls, rs),
{
    let a = strip_spec(ls);
    let b = reps_lines(rs);
    Seq::filter_distributes_over_add(a, b, keep_pred());
    lemma_strip_managed_complete(ls);
    lemma_filter_keep_all(a);
    assert(forall|i: int| 0 <= i < b.len() ==> is_managed_line(#[trigger] b[i]));
    lemma_filter_keep_none(b);
    assert(upsert_spec(upsert_spec(ls, rs), rs) =~= upsert_spec(ls, rs));
}

/// The value a line assigns to `k`, if the line is `k`, optional
/// whitespace, `=`, and a value; the value is returned trimmed.
pub open spec fn line_value(l: Seq<char>, k: Seq<char>) -> Option<Seq<char>> {
    if !starts_with(l, k) {
        Option::None
    } else {
        let rest = trim_front(l.skip(k.len() as int));
        if rest.len() > 0 && rest[0] == '=' {
            Option::Some(trim_spec(rest.drop_first()))
        } else {
            Option::None
        }
    }
}

/// The value the first matching line assigns to `k`, if any.
pub open spec fn props_lookup(ls: Seq<Seq<char>>, k: Seq<char>) -> Option<Seq<char>>
    decreases ls.len(),
{
    if ls.len() == 0 {
        Option::None
    } else {
        match line_value(ls[0], k) {
            Option::Some(v) => Option::Some(v),
            Option::None => props_lookup(ls.drop_first(), k),
        }
    }
}

fn line_value_exec(l: &str, k: &str) -> (r: Option<String>)
    ensures
        r is Some <==> line_value(l@, k@) is Some,
        r is Some ==> line_value(l@, k@) == Option::Some(r.unwrap()@),
{
    if !starts_with_str(l, k) {
        return None;
    }
    let llen: usize = l.unicode_len();
    let klen: usize = k.unicode_len();
    let mut m: usize = klen;
    while m < llen
        invariant
            llen == l@.len(),
            klen == k@.len(),
            klen <= m <= llen,
            forall|t: int| klen <= t < m ==> is_ws(l@[t]),
        ensures
            klen <= m <= llen,
            forall|t: int| klen <= t < m ==> is_ws(l@[t]),
            m == llen || !is_ws(l@[m as int]),
        decreases llen - m,
    {
        let c = l.get_char(m);
        if !(c == ' ' || c == '\t' || c == '\r' || c == '\n') {
            break;
        }
        m += 1;
    }
    proof {
        let rest0 = l@.skip(k@.len() as int);
        lemma_trim_front_idx(rest0, m - klen);
        assert(trim_front(rest0) =~= l@.subrange(m as int, llen as int));
    }
    if m == llen {
        return None;
    }
    if l.get_char(m) != '=' {
        proof {
            assert(trim_front(l@.skip(k@.len() as int))[0] == l@[m as int]);
        }
        return None;
    }
    let tail: &str = l.substring_char(m + 1, llen);
    let v: &str = trim_of(tail);
    proof {
        let rest = trim_front(l@.skip(k@.len() as int));
        assert(rest[0] == '=');
        assert(rest.drop_first() =~= tail@);
    }
    Some(v.to_owned())
}

/// Reads the value of `key` from the file's lines: the first line that is
/// the key, optional whitespace, `=`, and a value, yields that value,
/// trimmed of surrounding whitespace.
pub fn property_value(lines: &Vec<String>, key: &str) -> (r: Option<String>)
    ensures
        r is Some <==> props_lookup(lines.deep_view(), key@) is Some,
        r is Some ==> props_lookup(lines.deep_view(), key@) == Option::Some(r.unwrap()@),
{
    let ghost ls = lines.deep_view();
    let mut i: usize = 0;
    proof {
        assert(ls.skip(0) =~= ls);
    }
    while i < lines.len()
        invariant
            i <= lines.len(),
            ls == lines.deep_view(),
            props_lookup(ls, key@) == props_lookup(ls.skip(i as int), key@),
            ls.skip(i as int).len() == ls.len() - i,
        decreases lines.len() - i,
    {
        let line: &String = &lines[i];
        proof {
            assert(ls.skip(i as int)[0] == line@);
        }
        let v = line_value_exec(line.as_str(), key);
        if v.is_some() {
            proof {
                assert(props_lookup(ls.skip(i as int), key@) == line_value(line@, key@));
            }
            return v;
        }
        proof {
            assert(ls.skip(i as int).drop_first() =~= ls.skip(i + 1));
        }
        i += 1;
    }
    proof {
        assert(ls.skip(i as int).len() == 0);
    }
    None
}

} // verus!
