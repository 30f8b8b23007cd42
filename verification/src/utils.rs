//! Dependency lists given on the command line, and the clock.
use vstd::prelude::*;

use crate::error::AppErr;
use crate::text::{
    append_chars, append_i64, append_str, chars_of, int_decimal, is_ws, joined, lemma_parse_int_decimal,
    lemma_split_joined, lemma_trim_no_ws, parse_i64_chars, spec_parse_i64, split_commas,
    split_on_commas, trim, trim_chars,
};

use std::time::{Duration, SystemTime, SystemTimeError};

verus! {

/// The items of a comma separated list, each trimmed; empty items are
/// skipped, and the first item that is not a decimal `i64` is the error.
pub open spec fn parse_items(parts: Seq<Seq<char>>) -> Result<Seq<i64>, Seq<char>>
    decreases parts.len(),
{
    if parts.len() == 0 {
        Ok(Seq::<i64>::empty())
    } else {
        match parse_items(parts.drop_last()) {
            Err(e) => Err(e),
            Ok(vs) => {
                let item = trim(parts.last());
                if item.len() == 0 {
                    Ok(vs)
                } else {
                    match spec_parse_i64(item) {
                        Some(v) => Ok(vs.push(v)),
                        None => Err(item),
                    }
                }
            },
        }
    }
}

/// The task ids of a `--depends-on` value: none for a value that is only
/// white space; otherwise the comma separated items, as [`parse_items`] reads them.
pub open spec fn spec_parse_depends(raw: Seq<char>) -> Result<Seq<i64>, Seq<char>> {
    if trim(raw).len() == 0 {
        Ok(Seq::<i64>::empty())
    } else {
        parse_items(split_commas(raw))
    }
}

/// The items of a list that are not empty once trimmed, trimmed, in order.
pub open spec fn nonempty_items(parts: Seq<Seq<char>>) -> Seq<Seq<char>> {
    parts.map_values(|p: Seq<char>| trim(p)).filter(|p: Seq<char>| p.len() > 0)
}

/// A list is read item by item as trimming its pieces and dropping the
/// empty ones gives them: when every such item is an `i64`, the result is
/// those ids in order; otherwise it is the first item that is not.
pub proof fn law_parse_items_by_items(parts: Seq<Seq<char>>)
    ensures
        (forall|k: int|
            0 <= k < nonempty_items(parts).len() ==> spec_parse_i64(#[trigger] nonempty_items(parts)[k]) is Some)
            ==> parse_items(parts) == Ok::<Seq<i64>, Seq<char>>(
            nonempty_items(parts).map_values(|p: Seq<char>| spec_parse_i64(p)->0),
        ),
        forall|f: int|
            0 <= f < nonempty_items(parts).len() && spec_parse_i64(nonempty_items(parts)[f]) is None && (forall|k: int|
                0 <= k < f ==> spec_parse_i64(#[trigger] nonempty_items(parts)[k]) is Some)
                ==> parse_items(parts) == Err::<Seq<i64>, Seq<char>>(nonempty_items(parts)[f]),
    decreases parts.len(),
{
    let items = nonempty_items(parts);
    let rd = |p: Seq<char>| spec_parse_i64(p)->0;
    if parts.len() == 0 {
        reveal_with_fuel(Seq::<_>::filter, 1);
        assert(parts.map_values(|p: Seq<char>| trim(p)) =~= Seq::<Seq<char>>::empty());
        assert(items =~= Seq::<Seq<char>>::empty());
        assert(items.map_values(rd) =~= Seq::<i64>::empty());
    } else {
        let d = parts.drop_last();
        law_parse_items_by_items(d);
        let x = trim(parts.last());
        let keep = |p: Seq<char>| p.len() > 0;
        let md = d.map_values(|p: Seq<char>| trim(p));
        assert(parts.map_values(|p: Seq<char>| trim(p)) =~= md.push(x));
        md.lemma_filter_push(x, keep);
        let di = nonempty_items(d);
        if x.len() == 0 {
            assert(items == di);
        } else {
            assert(items == di.push(x));
            assert forall|k: int| 0 <= k < di.len() implies items[k] == di[k] by {}
            if forall|k: int| 0 <= k < items.len() ==> spec_parse_i64(#[trigger] items[k]) is Some {
                assert forall|k: int| 0 <= k < di.len() implies spec_parse_i64(#[trigger] di[k]) is Some by {
                    assert(items[k] == di[k]);
                }
                assert(spec_parse_i64(items[di.len() as int]) is Some);
                assert(items.map_values(rd) =~= di.map_values(rd).push(rd(x)));
            }
            assert forall|f: int|
                0 <= f < items.len() && spec_parse_i64(items[f]) is None && (forall|k: int|
                    0 <= k < f ==> spec_parse_i64(#[trigger] items[k]) is Some)
                    implies parse_items(parts) == Err::<Seq<i64>, Seq<char>>(items[f]) by {
                if f < di.len() {
                    assert forall|k: int| 0 <= k < f implies spec_parse_i64(#[trigger] di[k]) is Some by {
                        assert(items[k] == di[k]);
                    }
                    assert(items[f] == di[f]);
                } else {
                    assert forall|k: int| 0 <= k < di.len() implies spec_parse_i64(#[trigger] di[k]) is Some by {
                        assert(items[k] == di[k]);
                    }
                }
            }
        }
    }
}

/// Trimming keeps every comma: white space is never a comma.
proof fn lemma_trim_keeps_comma(s: Seq<char>)
    requires
        s.contains(','),
    ensures
        trim(s).contains(','),
{
    lemma_trim_start_keeps_comma(s);
    lemma_trim_end_keeps_comma(crate::text::trim_start(s));
}

proof fn lemma_trim_start_keeps_comma(s: Seq<char>)
    requires
        s.contains(','),
    ensures
        crate::text::trim_start(s).contains(','),
    decreases s.len(),
{
    if s.len() > 0 && is_ws(s[0]) {
        let j = choose|j: int| 0 <= j < s.len() && s[j] == ',';
        assert(j > 0);
        assert(s.drop_first()[j - 1] == ',');
        lemma_trim_start_keeps_comma(s.drop_first());
    }
}

proof fn lemma_trim_end_keeps_comma(s: Seq<char>)
    requires
        s.contains(','),
    ensures
        crate::text::trim_end(s).contains(','),
    decreases s.len(),
{
    if s.len() > 0 && is_ws(s.last()) {
        let j = choose|j: int| 0 <= j < s.len() && s[j] == ',';
        assert(j < s.len() - 1);
        assert(s.drop_last()[j] == ',');
        lemma_trim_end_keeps_comma(s.drop_last());
    }
}

/// Text without a comma is one piece.
proof fn lemma_split_no_comma(s: Seq<char>)
    requires
        !s.contains(','),
    ensures
        split_commas(s) == seq![s],
    decreases s.len(),
{
    if s.len() > 0 {
        let d = s.drop_last();
        assert(!d.contains(',')) by {
            if d.contains(',') {
                let j = choose|j: int| 0 <= j < d.len() && d[j] == ',';
                assert(s[j] == ',');
            }
        }
        lemma_split_no_comma(d);
        assert(s.last() == s[s.len() - 1]);
        assert(d.push(s.last()) =~= s);
        assert(seq![d].update(0, d.push(s.last())) =~= seq![s]);
    } else {
        assert(s =~= Seq::<char>::empty());
    }
}

/// `--depends-on` is read as splitting on commas, trimming each piece and
/// dropping the empty ones gives its items: when every item is an `i64`,
/// the result is those ids in order; otherwise it is the first item that is
/// not. A value that is only white space has no items.
pub proof fn law_parse_depends_by_items(raw: Seq<char>)
    ensures
        (forall|k: int|
            0 <= k < nonempty_items(split_commas(raw)).len() ==> spec_parse_i64(
                #[trigger] nonempty_items(split_commas(raw))[k],
            ) is Some) ==> spec_parse_depends(raw) == Ok::<Seq<i64>, Seq<char>>(
            nonempty_items(split_commas(raw)).map_values(|p: Seq<char>| spec_parse_i64(p)->0),
        ),
        forall|f: int|
            0 <= f < nonempty_items(split_commas(raw)).len() && spec_parse_i64(nonempty_items(split_commas(raw))[f])
                is None && (forall|k: int|
                0 <= k < f ==> spec_parse_i64(#[trigger] nonempty_items(split_commas(raw))[k]) is Some)
                ==> spec_parse_depends(raw) == Err::<Seq<i64>, Seq<char>>(nonempty_items(split_commas(raw))[f]),
{
    if trim(raw).len() > 0 {
        law_parse_items_by_items(split_commas(raw));
    } else {
        if raw.contains(',') {
            lemma_trim_keeps_comma(raw);
        }
        lemma_split_no_comma(raw);
        reveal_with_fuel(Seq::<_>::filter, 2);
        let m = seq![raw].map_values(|p: Seq<char>| trim(p));
        assert(m =~= seq![trim(raw)]);
        assert(m.drop_last() =~= Seq::<Seq<char>>::empty());
        let items = nonempty_items(split_commas(raw));
        assert(items =~= Seq::<Seq<char>>::empty());
        assert(items.map_values(|p: Seq<char>| spec_parse_i64(p)->0) =~= Seq::<i64>::empty());
    }
}

/// Items that are their own trim and read as the given ids give those ids.
proof fn lemma_parse_items_decimals(parts: Seq<Seq<char>>, v: Seq<i64>)
    requires
        parts.len() == v.len(),
        forall|k: int| 0 <= k < parts.len() ==> trim(#[trigger] parts[k]) == int_decimal(v[k] as int),
    ensures
        parse_items(parts) == Ok::<Seq<i64>, Seq<char>>(v),
    decreases parts.len(),
{
    if parts.len() > 0 {
        let d = parts.drop_last();
        let w = v.drop_last();
        assert forall|k: int| 0 <= k < d.len() implies trim(#[trigger] d[k]) == int_decimal(w[k] as int) by {
            assert(d[k] == parts[k]);
        }
        lemma_parse_items_decimals(d, w);
        let x = v.last();
        assert(parts.last() == parts[parts.len() - 1]);
        assert(v.last() == v[v.len() - 1]);
        assert(trim(parts[parts.len() - 1]) == int_decimal(v[v.len() - 1] as int));
        lemma_parse_int_decimal(x);
        assert(trim(parts.last()) == int_decimal(x as int));
        assert(w.push(x) =~= v);
    } else {
        assert(v =~= Seq::<i64>::empty());
    }
}

/// The decimal texts of ids.
pub open spec fn decimals(v: Seq<i64>) -> Seq<Seq<char>> {
    v.map_values(|x: i64| int_decimal(x as int))
}

/// Reading a `--depends-on` value made of ids written in decimal and joined
/// by commas gives back the ids, in the same order and with any repeats.
pub proof fn law_depends_read_back(v: Seq<i64>)
    ensures
        spec_parse_depends(joined(decimals(v), ","@)) == Ok::<Seq<i64>, Seq<char>>(v),
{
    reveal_strlit(",");
    let parts = decimals(v);
    let raw = joined(parts, ","@);
    if v.len() == 0 {
        assert(raw =~= Seq::<char>::empty());
        assert(trim(raw) =~= Seq::<char>::empty());
        assert(v =~= Seq::<i64>::empty());
    } else {
        assert forall|k: int| 0 <= k < parts.len() implies !(#[trigger] parts[k]).contains(',') by {
            lemma_parse_int_decimal(v[k]);
        }
        lemma_split_joined(parts);
        assert forall|k: int| 0 <= k < parts.len() implies trim(#[trigger] parts[k]) == int_decimal(v[k] as int) by {
            lemma_parse_int_decimal(v[k]);
            lemma_trim_no_ws(parts[k]);
        }
        lemma_parse_items_decimals(parts, v);
        lemma_joined_ends(parts);
        lemma_trim_no_ws(raw);
    }
}

/// The pieces of a list joined by `", "`: the first as it is, every other
/// one after a space.
pub open spec fn spaced(parts: Seq<Seq<char>>) -> Seq<Seq<char>> {
    Seq::new(parts.len(), |k: int| if k == 0 { parts[0] } else { " "@ + parts[k] })
}

/// Joining by `", "` is joining the spaced pieces by `","`.
proof fn lemma_joined_spaced(parts: Seq<Seq<char>>)
    requires
        parts.len() >= 1,
    ensures
        joined(parts, ", "@) == joined(spaced(parts), ","@),
    decreases parts.len(),
{
    reveal_strlit(", ");
    reveal_strlit(",");
    reveal_strlit(" ");
    if parts.len() > 1 {
        let d = parts.drop_last();
        lemma_joined_spaced(d);
        assert(spaced(parts).drop_last() =~= spaced(d));
        assert(spaced(parts).last() == " "@ + parts.last());
        assert(joined(spaced(parts), ","@) == joined(spaced(d), ","@) + ","@ + (" "@ + parts.last()));
        assert(joined(d, ", "@) + ", "@ + parts.last() =~= joined(spaced(d), ","@) + ","@ + (" "@ + parts.last()));
    } else {
        assert(spaced(parts)[0] == parts[0]);
    }
}

/// A join starts with the first character of its first piece and ends with
/// the last character of its last piece.
proof fn lemma_joined_bounds(v: Seq<Seq<char>>, sep: Seq<char>)
    requires
        v.len() >= 1,
        v[0].len() >= 1,
        v.last().len() >= 1,
    ensures
        joined(v, sep).len() >= 1,
        joined(v, sep)[0] == v[0][0],
        joined(v, sep).last() == v.last().last(),
    decreases v.len(),
{
    if v.len() > 1 {
        let d = v.drop_last();
        lemma_joined_prefix(d, sep);
        let j = joined(d, sep) + sep + v.last();
        assert(j.last() == v.last().last());
        assert(j[0] == joined(d, sep)[0]);
    }
}

/// A join of pieces whose first piece is not empty starts with that piece's
/// first character.
proof fn lemma_joined_prefix(v: Seq<Seq<char>>, sep: Seq<char>)
    requires
        v.len() >= 1,
        v[0].len() >= 1,
    ensures
        joined(v, sep).len() >= 1,
        joined(v, sep)[0] == v[0][0],
    decreases v.len(),
{
    if v.len() > 1 {
        let d = v.drop_last();
        assert(d[0] == v[0]);
        lemma_joined_prefix(d, sep);
    }
}

/// Reading a `--depends-on` value made of ids written in decimal and joined
/// by a comma and a space gives back the ids, in the same order and with
/// any repeats.
pub proof fn law_depends_read_back_spaced(v: Seq<i64>)
    ensures
        spec_parse_depends(joined(decimals(v), ", "@)) == Ok::<Seq<i64>, Seq<char>>(v),
{
    reveal_strlit(",");
    reveal_strlit(" ");
    let parts = decimals(v);
    let raw = joined(parts, ", "@);
    if v.len() == 0 {
        assert(raw =~= Seq::<char>::empty());
        assert(trim(raw) =~= Seq::<char>::empty());
        assert(v =~= Seq::<i64>::empty());
    } else {
        let sp = spaced(parts);
        lemma_joined_spaced(parts);
        assert forall|k: int| 0 <= k < sp.len() implies !(#[trigger] sp[k]).contains(',') && trim(sp[k])
            == int_decimal(v[k] as int) by {
            lemma_parse_int_decimal(v[k]);
            let d = parts[k];
            if k > 0 {
                let q = " "@ + d;
                assert(q.drop_first() =~= d);
                assert(is_ws(q[0]));
                assert(crate::text::trim_start(q) == crate::text::trim_start(d));
                if q.contains(',') {
                    let j = choose|j: int| 0 <= j < q.len() && q[j] == ',';
                    assert(j > 0);
                    assert(d[j - 1] == ',');
                }
            }
            lemma_trim_no_ws(d);
            assert(crate::text::trim_start(d) == d);
        }
        lemma_split_joined(sp);
        lemma_parse_items_decimals(sp, v);
        lemma_parse_int_decimal(v[0]);
        lemma_parse_int_decimal(v[v.len() - 1]);
        assert(sp[0] == parts[0]);
        assert(sp.last() == sp[sp.len() - 1]);
        if sp.len() > 1 {
            assert((" "@ + parts[sp.len() - 1]).last() == parts[sp.len() - 1].last());
        }
        lemma_joined_bounds(sp, ","@);
        lemma_trim_no_ws(raw);
    }
}

/// A comma join of decimal texts starts and ends with no white space.
proof fn lemma_joined_ends(parts: Seq<Seq<char>>)
    requires
        parts.len() >= 1,
        forall|k: int| 0 <= k < parts.len() ==> exists|x: i64| #[trigger] parts[k] == int_decimal(x as int),
    ensures
        joined(parts, ","@).len() >= 1,
        !is_ws(joined(parts, ","@)[0]),
        !is_ws(joined(parts, ","@).last()),
        joined(parts, ","@)[0] == parts[0][0],
    decreases parts.len(),
{
    reveal_strlit(",");
    let x0 = choose|x: i64| parts[0] == int_decimal(x as int);
    lemma_parse_int_decimal(x0);
    let l = parts[parts.len() - 1];
    let xl = choose|x: i64| parts[parts.len() - 1] == int_decimal(x as int);
    lemma_parse_int_decimal(xl);
    if parts.len() > 1 {
        let d = parts.drop_last();
        assert forall|k: int| 0 <= k < d.len() implies exists|x: i64| #[trigger] d[k] == int_decimal(x as int) by {
            assert(d[k] == parts[k]);
        }
        lemma_joined_ends(d);
        let j = joined(parts, ","@);
        assert(j == joined(d, ","@) + ","@ + parts.last());
        assert(j[0] == joined(d, ","@)[0]);
        assert(parts.last() == l);
        assert(j.last() == l.last());
    }
}

/// The message for an item that is not a task id.
pub open spec fn invalid_task_id_msg(item: Seq<char>) -> Seq<char> {
    "invalid task id '"@ + item + "'"@
}

/// Reads a `--depends-on` value: `None` stays `None`; a value that is only
/// white space gives an empty list; otherwise the comma separated task ids,
/// empty items skipped. An item that is not an `i64` is an `input` error.
#[verifier::loop_isolation(false)]
pub fn parse_depends(raw: Option<String>) -> (res: Result<Option<Vec<i64>>, AppErr>)
    ensures
        raw is None ==> res == Ok::<Option<Vec<i64>>, AppErr>(None),
        raw matches Some(r) ==> match spec_parse_depends(r@) {
            Ok(ids) => res matches Ok(Some(v)) && v@ == ids,
            Err(item) => res matches Err(e) && e.0@ == "input"@ && e.1@ == invalid_task_id_msg(
                item,
            ),
        },
{
    match raw {
        None => Ok(None),
        Some(raw) => {
            let ghost r = raw@;
            let chars = chars_of(raw.as_str());
            let trimmed = trim_chars(&chars);
            if trimmed.len() == 0 {
                return Ok(Some(Vec::new()));
            }
            let parts = split_on_commas(&chars);
            let ghost sp = split_commas(chars@);
            let mut out: Vec<i64> = Vec::new();
            let mut i: usize = 0;
            assert(sp.take(0) =~= Seq::<Seq<char>>::empty());
            while i < parts.len()
                invariant
                    i <= parts.len(),
                    chars@ == r,
                    trim(r).len() > 0,
                    sp == split_commas(chars@),
                    parts@.len() == sp.len(),
                    forall|k: int| 0 <= k < parts@.len() ==> #[trigger] parts@[k]@ == sp[k],
                    parse_items(sp.take(i as int)) == Ok::<Seq<i64>, Seq<char>>(out@),
                decreases parts.len() - i,
            {
                let item = trim_chars(&parts[i]);
                assert(sp.take(i + 1).drop_last() =~= sp.take(i as int));
                assert(sp.take(i + 1).last() == sp[i as int]);
                if item.len() > 0 {
                    match parse_i64_chars(&item) {
                        Some(v) => {
                            out.push(v);
                        },
                        None => {
                            let mut msg = String::new();
                            append_str(&mut msg, "invalid task id '");
                            append_chars(&mut msg, &item);
                            append_str(&mut msg, "'");
                            proof {
                                lemma_parse_items_err_persists(sp, i as int + 1);
                            }
                            return Err(AppErr("input", msg));
                        },
                    }
                }
                i = i + 1;
            }
            assert(sp.take(parts.len() as int) =~= sp);
            Ok(Some(out))
        },
    }
}

/// Once a prefix of the items fails, the whole list fails with the same item.
proof fn lemma_parse_items_err_persists(parts: Seq<Seq<char>>, i: int)
    requires
        0 <= i <= parts.len(),
        parse_items(parts.take(i)) is Err,
    ensures
        parse_items(parts) == parse_items(parts.take(i)),
    decreases parts.len() - i,
{
    if i < parts.len() {
        assert(parts.take(i + 1).drop_last() =~= parts.take(i));
        lemma_parse_items_err_persists(parts, i + 1);
    } else {
        assert(parts.take(i) =~= parts);
    }
}

/// `s` is in strictly increasing order.
pub open spec fn strictly_sorted(s: Seq<i64>) -> bool {
    forall|i: int, j: int| 0 <= i < j < s.len() ==> s[i] < s[j]
}

/// The ids of `s`, each once, in increasing order.
pub open spec fn sorted_ids(s: Seq<i64>) -> Seq<i64> {
    choose|r: Seq<i64>| strictly_sorted(r) && forall|x: i64| r.contains(x) <==> s.contains(x)
}

/// Two increasing lists of the same ids are equal.
pub proof fn lemma_sorted_unique(a: Seq<i64>, b: Seq<i64>)
    requires
        strictly_sorted(a),
        strictly_sorted(b),
        forall|x: i64| a.contains(x) <==> b.contains(x),
    ensures
        a == b,
    decreases a.len(),
{
    if a.len() == 0 {
        if b.len() > 0 {
            assert(b.contains(b[0]));
        }
        assert(a =~= b);
    } else {
        assert(a.contains(a[0]));
        assert(b.len() > 0);
        assert(b.contains(b[0]));
        let ia = choose|i: int| 0 <= i < a.len() && a[i] == b[0];
        let ib = choose|i: int| 0 <= i < b.len() && b[i] == a[0];
        assert(a[0] == b[0]) by {
            if ia > 0 {
                assert(a[0] < a[ia]);
            }
            if ib > 0 {
                assert(b[0] < b[ib]);
            }
        }
        let a2 = a.drop_first();
        let b2 = b.drop_first();
        assert forall|x: i64| a2.contains(x) <==> b2.contains(x) by {
            if a2.contains(x) {
                let i = choose|i: int| 0 <= i < a2.len() && a2[i] == x;
                assert(a[i + 1] == x);
                assert(a[0] < a[i + 1]);
                assert(b.contains(x));
                let j = choose|j: int| 0 <= j < b.len() && b[j] == x;
                assert(j != 0);
                assert(b2[j - 1] == x);
            }
            if b2.contains(x) {
                let i = choose|i: int| 0 <= i < b2.len() && b2[i] == x;
                assert(b[i + 1] == x);
                assert(b[0] < b[i + 1]);
                assert(a.contains(x));
                let j = choose|j: int| 0 <= j < a.len() && a[j] == x;
                assert(j != 0);
                assert(a2[j - 1] == x);
            }
        }
        assert(strictly_sorted(a2)) by {
            assert forall|i: int, j: int| 0 <= i < j < a2.len() implies a2[i] < a2[j] by {
                assert(a[i + 1] < a[j + 1]);
            }
        }
        assert(strictly_sorted(b2)) by {
            assert forall|i: int, j: int| 0 <= i < j < b2.len() implies b2[i] < b2[j] by {
                assert(b[i + 1] < b[j + 1]);
            }
        }
        lemma_sorted_unique(a2, b2);
        assert(a =~= b) by {
            assert forall|i: int| 0 <= i < a.len() implies a[i] == b[i] by {
                if i > 0 {
                    assert(a2[i - 1] == b2[i - 1]);
                }
            }
        }
    }
}

/// Every list of ids has an increasing list of the same ids, which is what
/// [`sorted_ids`] gives.
pub proof fn lemma_sorted_ids(s: Seq<i64>)
    ensures
        strictly_sorted(sorted_ids(s)),
        forall|x: i64| sorted_ids(s).contains(x) <==> s.contains(x),
    decreases s.len(),
{
    if s.len() == 0 {
        let r = Seq::<i64>::empty();
        assert(strictly_sorted(r) && forall|x: i64| r.contains(x) <==> s.contains(x));
    } else {
        let d = s.drop_last();
        let x = s.last();
        lemma_sorted_ids(d);
        let r = sorted_ids(d);
        assert forall|y: i64| s.contains(y) <==> (d.contains(y) || y == x) by {
            if s.contains(y) {
                let i = choose|i: int| 0 <= i < s.len() && s[i] == y;
                if i < d.len() {
                    assert(d[i] == y);
                }
            }
            if d.contains(y) {
                let i = choose|i: int| 0 <= i < d.len() && d[i] == y;
                assert(s[i] == y);
            }
            if y == x {
                assert(s[s.len() - 1] == y);
            }
        }
        if r.contains(x) {
            assert(strictly_sorted(r) && forall|y: i64| r.contains(y) <==> s.contains(y));
        } else {
            let k = choose_insert_point(r, x);
            let t = r.take(k).push(x) + r.skip(k);
            assert forall|i: int, j: int| 0 <= i < j < t.len() implies t[i] < t[j] by {
                if j < k {
                    assert(t[i] == r[i] && t[j] == r[j]);
                } else if j == k {
                    assert(t[j] == x);
                    assert(t[i] == r[i]);
                } else if i < k {
                    assert(t[i] == r[i]);
                    assert(t[j] == r[j - 1]);
                } else if i == k {
                    assert(t[i] == x);
                    assert(t[j] == r[j - 1]);
                } else {
                    assert(t[i] == r[i - 1] && t[j] == r[j - 1]);
                }
            }
            assert forall|y: i64| t.contains(y) <==> s.contains(y) by {
                if t.contains(y) {
                    let i = choose|i: int| 0 <= i < t.len() && t[i] == y;
                    if i < k {
                        assert(r[i] == y);
                    } else if i > k {
                        assert(r[i - 1] == y);
                    }
                }
                if r.contains(y) {
                    let i = choose|i: int| 0 <= i < r.len() && r[i] == y;
                    if i < k {
                        assert(t[i] == y);
                    } else {
                        assert(t[i + 1] == y);
                    }
                }
                if y == x {
                    assert(t[k] == x);
                }
            }
            assert(strictly_sorted(t) && forall|y: i64| t.contains(y) <==> s.contains(y));
        }
    }
}

/// Where `x` goes in the increasing list `r`: after the ids below it and
/// before those above it.
proof fn choose_insert_point(r: Seq<i64>, x: i64) -> (k: int)
    requires
        strictly_sorted(r),
        !r.contains(x),
    ensures
        0 <= k <= r.len(),
        forall|i: int| 0 <= i < k ==> r[i] < x,
        forall|i: int| k <= i < r.len() ==> r[i] > x,
    decreases r.len(),
{
    if r.len() == 0 {
        0
    } else if r.last() < x {
        assert forall|i: int| 0 <= i < r.len() implies r[i] < x by {
            if i < r.len() - 1 {
                assert(r[i] < r[r.len() - 1]);
            }
        }
        r.len() as int
    } else {
        let d = r.drop_last();
        assert(strictly_sorted(d));
        assert(!d.contains(x)) by {
            if d.contains(x) {
                let i = choose|i: int| 0 <= i < d.len() && d[i] == x;
                assert(r[i] == x);
            }
        }
        assert(r.last() != x) by {
            assert(r[r.len() - 1] == r.last());
        }
        let k = choose_insert_point(d, x);
        assert forall|i: int| 0 <= i < k implies r[i] < x by {
            assert(d[i] == r[i]);
        }
        assert forall|i: int| k <= i < r.len() implies r[i] > x by {
            if i < r.len() - 1 {
                assert(d[i] == r[i]);
            }
        }
        k
    }
}

/// Sorting a sorted list without repeats changes nothing.
pub proof fn lemma_sorted_ids_idempotent(s: Seq<i64>)
    ensures
        sorted_ids(sorted_ids(s)) == sorted_ids(s),
{
    lemma_sorted_ids(s);
    lemma_sorted_ids(sorted_ids(s));
    lemma_sorted_unique(sorted_ids(sorted_ids(s)), sorted_ids(s));
}

/// Sorts a list of task ids and removes repeated ids: the result holds each
/// id of the input once, in increasing order.
pub fn normalize_depends(deps: Vec<i64>) -> (r: Vec<i64>)
    ensures
        strictly_sorted(r@),
        forall|x: i64| r@.contains(x) <==> deps@.contains(x),
        r@ == sorted_ids(deps@),
{
    let r = sort_unique(deps);
    proof {
        let c = sorted_ids(deps@);
        assert(strictly_sorted(r@) && forall|x: i64| r@.contains(x) <==> deps@.contains(x));
        lemma_sorted_unique(r@, c);
    }
    r
}

fn sort_unique(deps: Vec<i64>) -> (r: Vec<i64>)
    ensures
        strictly_sorted(r@),
        forall|x: i64| r@.contains(x) <==> deps@.contains(x),
{
    let mut out: Vec<i64> = Vec::new();
    let mut i: usize = 0;
    while i < deps.len()
        invariant
            i <= deps.len(),
            strictly_sorted(out@),
            forall|x: i64| out@.contains(x) <==> deps@.take(i as int).contains(x),
        decreases deps.len() - i,
    {
        let x = deps[i];
        let mut p: usize = 0;
        while p < out.len() && out[p] < x
            invariant
                p <= out.len(),
                forall|k: int| 0 <= k < p ==> out@[k] < x,
            decreases out.len() - p,
        {
            p = p + 1;
        }
        let ghost before = out@;
        if p == out.len() || out[p] != x {
            out.insert(p, x);
            assert forall|a: int, b: int| 0 <= a < b < out@.len() implies out@[a] < out@[b] by {
                if b < p {
                } else if a < p && b == p {
                } else if a < p {
                    assert(out@[b] == before[b - 1]);
                } else if a == p {
                    assert(out@[b] == before[b - 1]);
                    assert(before[p as int] > x || before[p as int] == x);
                } else {
                    assert(out@[a] == before[a - 1]);
                    assert(out@[b] == before[b - 1]);
                }
            }
            assert forall|y: i64| out@.contains(y) <==> deps@.take(i + 1).contains(y) by {
                assert(deps@.take(i + 1) =~= deps@.take(i as int).push(x));
                if out@.contains(y) {
                    let k = choose|k: int| 0 <= k < out@.len() && out@[k] == y;
                    if k < p {
                        assert(before[k] == y);
                    } else if k > p {
                        assert(before[k - 1] == y);
                    }
                }
                if before.contains(y) {
                    let k = choose|k: int| 0 <= k < before.len() && before[k] == y;
                    if k < p {
                        assert(out@[k] == y);
                    } else {
                        assert(out@[k + 1] == y);
                    }
                }
                if y == x {
                    assert(out@[p as int] == x);
                    assert(deps@.take(i + 1)[i as int] == x);
                }
            }
        } else {
            assert forall|y: i64| out@.contains(y) <==> deps@.take(i + 1).contains(y) by {
                assert(deps@.take(i + 1) =~= deps@.take(i as int).push(x));
                if y == x {
                    assert(out@[p as int] == x);
                    assert(deps@.take(i + 1)[i as int] == x);
                }
            }
        }
        i = i + 1;
    }
    assert(deps@.take(deps.len() as int) =~= deps@);
    out
}

/// The ids of `ds` in decimal, separated by `", "`.
pub open spec fn decimal_list(ds: Seq<i64>) -> Seq<char>
    decreases ds.len(),
{
    if ds.len() == 0 {
        Seq::<char>::empty()
    } else if ds.len() == 1 {
        int_decimal(ds[0] as int)
    } else {
        decimal_list(ds.drop_last()) + ", "@ + int_decimal(ds.last() as int)
    }
}

/// The `dependsOn` text of a task: its ids in brackets, separated by
/// `", "`, such as `"[2, 4, 8]"`, or `"[]"`.
pub fn format_depends(deps: &[i64]) -> (s: String)
    ensures
        s@ == "["@ + decimal_list(deps@) + "]"@,
{
    let mut s = String::new();
    append_str(&mut s, "[");
    let ghost open_br = s@;
    let mut i: usize = 0;
    assert(deps@.take(0) =~= Seq::<i64>::empty());
    while i < deps.len()
        invariant
            i <= deps.len(),
            open_br == "["@,
            s@ == open_br + decimal_list(deps@.take(i as int)),
        decreases deps.len() - i,
    {
        assert(deps@.take(i + 1).drop_last() =~= deps@.take(i as int));
        if i > 0 {
            append_str(&mut s, ", ");
        }
        append_i64(&mut s, deps[i]);
        proof {
            if i == 0 {
                assert(open_br + decimal_list(deps@.take(1)) =~= open_br + int_decimal(
                    deps@[0] as int,
                ));
            } else {
                assert(open_br + decimal_list(deps@.take(i + 1)) =~= open_br + decimal_list(
                    deps@.take(i as int),
                ) + ", "@ + int_decimal(deps@[i as int] as int));
            }
        }
        i = i + 1;
    }
    assert(deps@.take(deps.len() as int) =~= deps@);
    append_str(&mut s, "]");
    s
}

#[verifier::external_type_specification]
#[verifier::external_body]
pub struct ExSystemTime(SystemTime);

#[verifier::external_type_specification]
#[verifier::external_body]
pub struct ExSystemTimeError(SystemTimeError);

/// `SystemTime::now`: the current time of the system clock. Nothing is
/// claimed of the value.
#[verifier::external_body]
fn system_time_now() -> SystemTime {
    SystemTime::now()
}

/// `SystemTime::duration_since(UNIX_EPOCH)`: the time elapsed since the
/// epoch, or an error for a clock set before it. Nothing is claimed of the
/// value.
#[verifier::external_body]
fn since_unix_epoch(t: &SystemTime) -> Result<Duration, SystemTimeError> {
    t.duration_since(std::time::UNIX_EPOCH)
}

/// `Duration::as_secs`: the whole seconds of a duration. Nothing is claimed
/// of the value.
#[verifier::external_body]
fn duration_secs(d: &Duration) -> u64 {
    d.as_secs()
}

/// The whole seconds between the epoch and the current time, taken to
/// an `i64` with wrap-around; `0` when the clock stands before the epoch.
/// The value comes from the system clock, so nothing pins it; what follows
/// the clock reading is [`secs_to_timestamp`].
pub fn now_secs() -> i64 {
    let now = system_time_now();
    match since_unix_epoch(&now) {
        Ok(d) => secs_to_timestamp(Some(duration_secs(&d))),
        Err(_) => secs_to_timestamp(None),
    }
}

/// The timestamp for a clock reading: the seconds since the epoch taken to
/// an `i64` (wrapping as `as` does), or `0` for a clock before the epoch.
pub fn secs_to_timestamp(secs: Option<u64>) -> (r: i64)
    ensures
        r == match secs {
            Some(s) => s as i64,
            None => 0i64,
        },
{
    match secs {
        Some(s) => s as i64,
        None => 0,
    }
}

} // verus!
