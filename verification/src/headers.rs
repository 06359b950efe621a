//! Header lists kept in an `http::HeaderMap`, and what its operations do to
//! the (name, value) pairs it holds: names are kept in the order they first appear,
//! the values of one name stay together, `get` gives the first value of a name,
//! `append` adds a value after the name's last one and `insert` leaves exactly
//! one value for the name, where its first value was.
use vstd::prelude::*;
use crate::head_parse::pairs_view;
use crate::http_model::{
    header_name_from_bytes, header_name_spec, header_value_from_bytes, header_value_ok,
    is_header_name_byte, lower_bytes,
};
use crate::text::{
    all_digits, all_visible_ascii, ascii_bytes, copy_bytes, digits_value, is_ascii_digit, is_visible_ascii,
    is_visible_text, literal_bytes, parse_usize, parse_usize_spec, unsigned_digits,
};

verus! {

/// A header list as the specifications see it: (name, value) pairs in order.
pub type HeaderSeq = Seq<(Seq<u8>, Seq<u8>)>;

/// Index of the first entry named `n`, or -1.
pub open spec fn first_index(hs: HeaderSeq, n: Seq<u8>) -> int
    decreases hs.len(),
{
    if hs.len() == 0 {
        -1
    } else if hs[0].0 == n {
        0
    } else {
        let r = first_index(hs.drop_first(), n);
        if r < 0 {
            -1
        } else {
            r + 1
        }
    }
}

/// Index of the last entry named `n`, or -1.
pub open spec fn last_index(hs: HeaderSeq, n: Seq<u8>) -> int
    decreases hs.len(),
{
    if hs.len() == 0 {
        -1
    } else if hs.last().0 == n {
        hs.len() - 1
    } else {
        last_index(hs.drop_last(), n)
    }
}

pub open spec fn has_name(hs: HeaderSeq, n: Seq<u8>) -> bool {
    exists|i: int| 0 <= i < hs.len() && #[trigger] hs[i].0 == n
}

/// The first value of `n`, as `HeaderMap::get` gives it.
pub open spec fn header_get(hs: HeaderSeq, n: Seq<u8>) -> Option<Seq<u8>> {
    let i = first_index(hs, n);
    if i >= 0 {
        Some(hs[i].1)
    } else {
        None
    }
}

/// `HeaderMap::append`: the value goes right after the last value of its name,
/// or at the end for a new name.
pub open spec fn header_append(hs: HeaderSeq, n: Seq<u8>, v: Seq<u8>) -> HeaderSeq {
    let k = last_index(hs, n);
    if k < 0 {
        hs.push((n, v))
    } else {
        hs.insert(k + 1, (n, v))
    }
}

/// Walks `hs`, putting `(n, v)` where the first entry named `n` was (or at the
/// end, when there is none and it was not placed yet) and dropping every other
/// entry named `n`.
pub open spec fn replace_from(hs: HeaderSeq, n: Seq<u8>, v: Seq<u8>, placed: bool) -> HeaderSeq
    decreases hs.len(),
{
    if hs.len() == 0 {
        if placed {
            Seq::empty()
        } else {
            seq![(n, v)]
        }
    } else if hs[0].0 == n {
        if placed {
            replace_from(hs.drop_first(), n, v, true)
        } else {
            seq![(n, v)] + replace_from(hs.drop_first(), n, v, true)
        }
    } else {
        seq![hs[0]] + replace_from(hs.drop_first(), n, v, placed)
    }
}

/// `HeaderMap::insert`: afterwards `n` has the single value `v`.
pub open spec fn header_insert(hs: HeaderSeq, n: Seq<u8>, v: Seq<u8>) -> HeaderSeq {
    replace_from(hs, n, v, false)
}

/// `first_index` is the least index carrying the name, or -1 when none does.
pub proof fn lemma_first_index(hs: HeaderSeq, n: Seq<u8>)
    ensures
        -1 <= first_index(hs, n) < hs.len(),
        first_index(hs, n) == -1 <==> !has_name(hs, n),
        first_index(hs, n) >= 0 ==> hs[first_index(hs, n)].0 == n,
        forall|j: int| 0 <= j < first_index(hs, n) ==> #[trigger] hs[j].0 != n,
        first_index(hs, n) == -1 ==> forall|j: int| 0 <= j < hs.len() ==> #[trigger] hs[j].0 != n,
    decreases hs.len(),
{
    if hs.len() > 0 && hs[0].0 != n {
        let t = hs.drop_first();
        lemma_first_index(t, n);
        assert forall|j: int| 0 <= j < first_index(hs, n) implies #[trigger] hs[j].0 != n by {
            if j > 0 {
                assert(hs[j] == t[j - 1]);
            }
        }
        if first_index(t, n) == -1 {
            assert forall|j: int| 0 <= j < hs.len() implies #[trigger] hs[j].0 != n by {
                if j > 0 {
                    assert(hs[j] == t[j - 1]);
                }
            }
        } else {
            assert(hs[first_index(hs, n)] == t[first_index(t, n)]);
            assert(has_name(hs, n));
        }
    } else if hs.len() > 0 {
        assert(hs[0].0 == n);
        assert(has_name(hs, n));
    }
}

/// A least index carrying the name is the first index.
pub proof fn lemma_first_index_is(hs: HeaderSeq, n: Seq<u8>, k: int)
    requires
        0 <= k < hs.len(),
        hs[k].0 == n,
        forall|j: int| 0 <= j < k ==> #[trigger] hs[j].0 != n,
    ensures
        first_index(hs, n) == k,
{
    lemma_first_index(hs, n);
    assert(has_name(hs, n));
}

/// `last_index` is the greatest index carrying the name, or -1 when none does.
pub proof fn lemma_last_index(hs: HeaderSeq, n: Seq<u8>)
    ensures
        -1 <= last_index(hs, n) < hs.len(),
        last_index(hs, n) == -1 <==> !has_name(hs, n),
        last_index(hs, n) >= 0 ==> hs[last_index(hs, n)].0 == n,
        forall|j: int| last_index(hs, n) < j < hs.len() ==> #[trigger] hs[j].0 != n,
    decreases hs.len(),
{
    if hs.len() > 0 && hs.last().0 != n {
        let t = hs.drop_last();
        lemma_last_index(t, n);
        assert forall|j: int| last_index(hs, n) < j < hs.len() implies #[trigger] hs[j].0 != n by {
            if j < hs.len() - 1 {
                assert(hs[j] == t[j]);
            }
        }
        if last_index(t, n) == -1 {
            if has_name(hs, n) {
                let i = choose|i: int| 0 <= i < hs.len() && #[trigger] hs[i].0 == n;
                assert(hs[i] == t[i]);
            }
        } else {
            assert(hs[last_index(hs, n)] == t[last_index(t, n)]);
            assert(has_name(hs, n));
        }
    } else if hs.len() > 0 {
        assert(hs[hs.len() - 1].0 == n);
        assert(has_name(hs, n));
    }
}

/// Law: after `insert`, `get` of that name gives the inserted value.
pub proof fn lemma_get_after_insert(hs: HeaderSeq, n: Seq<u8>, v: Seq<u8>)
    ensures
        header_get(header_insert(hs, n, v), n) == Some(v),
{
    lemma_replace_from_get(hs, n, v);
}

/// `get` on a list with one more entry in front.
pub proof fn lemma_get_cons(x: (Seq<u8>, Seq<u8>), t: HeaderSeq, m: Seq<u8>)
    ensures
        header_get(seq![x] + t, m) == (if x.0 == m {
            Some(x.1)
        } else {
            header_get(t, m)
        }),
{
    let xs = seq![x] + t;
    assert(xs.drop_first() =~= t);
    assert(xs[0] == x);
    lemma_first_index(t, m);
    if x.0 != m && first_index(t, m) >= 0 {
        assert(xs[first_index(t, m) + 1] == t[first_index(t, m)]);
    }
}

proof fn lemma_replace_from_get(hs: HeaderSeq, n: Seq<u8>, v: Seq<u8>)
    ensures
        header_get(replace_from(hs, n, v, false), n) == Some(v),
    decreases hs.len(),
{
    if hs.len() == 0 {
        lemma_get_cons((n, v), Seq::empty(), n);
        assert(seq![(n, v)] + Seq::<(Seq<u8>, Seq<u8>)>::empty() =~= seq![(n, v)]);
    } else if hs[0].0 == n {
        lemma_get_cons((n, v), replace_from(hs.drop_first(), n, v, true), n);
    } else {
        lemma_replace_from_get(hs.drop_first(), n, v);
        lemma_get_cons(hs[0], replace_from(hs.drop_first(), n, v, false), n);
    }
}

/// Law: `insert` of one name leaves `get` of every other name unchanged.
pub proof fn lemma_get_other_after_insert(hs: HeaderSeq, n: Seq<u8>, v: Seq<u8>, m: Seq<u8>)
    requires
        m != n,
    ensures
        header_get(header_insert(hs, n, v), m) == header_get(hs, m),
{
    lemma_replace_from_other(hs, n, v, false, m);
}

proof fn lemma_replace_from_other(hs: HeaderSeq, n: Seq<u8>, v: Seq<u8>, placed: bool, m: Seq<u8>)
    requires
        m != n,
    ensures
        header_get(replace_from(hs, n, v, placed), m) == header_get(hs, m),
    decreases hs.len(),
{
    if hs.len() == 0 {
        if !placed {
            lemma_get_cons((n, v), Seq::empty(), m);
            assert(seq![(n, v)] + Seq::<(Seq<u8>, Seq<u8>)>::empty() =~= seq![(n, v)]);
        }
    } else {
        let t = hs.drop_first();
        assert(hs =~= seq![hs[0]] + t);
        lemma_get_cons(hs[0], t, m);
        lemma_replace_from_other(t, n, v, true, m);
        lemma_replace_from_other(t, n, v, placed, m);
        if hs[0].0 == n {
            if !placed {
                lemma_get_cons((n, v), replace_from(t, n, v, true), m);
            }
        } else {
            lemma_get_cons(hs[0], replace_from(t, n, v, placed), m);
        }
    }
}

/// Law: `append` keeps the first value of its name, or gives the new value to
/// a name that had none; `get` of other names is unchanged.
pub proof fn lemma_get_after_append(hs: HeaderSeq, n: Seq<u8>, v: Seq<u8>, m: Seq<u8>)
    ensures
        header_get(header_append(hs, n, v), n) == (match header_get(hs, n) {
            Some(old) => Some(old),
            None => Some(v),
        }),
        m != n ==> header_get(header_append(hs, n, v), m) == header_get(hs, m),
{
    let r = header_append(hs, n, v);
    lemma_last_index(hs, n);
    lemma_first_index(hs, n);
    lemma_first_index(hs, m);
    lemma_first_index(r, n);
    lemma_first_index(r, m);
    let k = last_index(hs, n);
    if k < 0 {
        assert(!has_name(hs, n));
        assert(r[hs.len() as int] == (n, v));
        assert forall|j: int| 0 <= j < hs.len() implies #[trigger] r[j].0 != n by {
            assert(r[j] == hs[j]);
        }
        lemma_first_index_is(r, n, hs.len() as int);
        if m != n {
            let f = first_index(hs, m);
            if f >= 0 {
                assert forall|j: int| 0 <= j < f implies #[trigger] r[j].0 != m by {
                    assert(r[j] == hs[j]);
                }
                assert(r[f] == hs[f]);
                lemma_first_index_is(r, m, f);
            } else {
                assert forall|j: int| 0 <= j < r.len() implies #[trigger] r[j].0 != m by {
                    if j < hs.len() {
                        assert(r[j] == hs[j]);
                    }
                }
                assert(!has_name(r, m));
            }
        }
    } else {
        let f = first_index(hs, n);
        assert(has_name(hs, n));
        assert(f <= k);
        assert forall|j: int| 0 <= j < f implies #[trigger] r[j].0 != n by {
            assert(r[j] == hs[j]);
        }
        assert(r[f] == hs[f]);
        lemma_first_index_is(r, n, f);
        if m != n {
            let g = first_index(hs, m);
            if g >= 0 {
                if g <= k {
                    assert forall|j: int| 0 <= j < g implies #[trigger] r[j].0 != m by {
                        assert(r[j] == hs[j]);
                    }
                    assert(r[g] == hs[g]);
                    lemma_first_index_is(r, m, g);
                } else {
                    assert forall|j: int| 0 <= j < g + 1 implies #[trigger] r[j].0 != m by {
                        if j <= k {
                            assert(r[j] == hs[j]);
                        } else if j > k + 1 {
                            assert(r[j] == hs[j - 1]);
                        }
                    }
                    assert(r[g + 1] == hs[g]);
                    lemma_first_index_is(r, m, g + 1);
                }
            } else {
                assert forall|j: int| 0 <= j < r.len() implies #[trigger] r[j].0 != m by {
                    if j <= k {
                        assert(r[j] == hs[j]);
                    } else if j > k + 1 {
                        assert(r[j] == hs[j - 1]);
                    }
                }
                assert(!has_name(r, m));
            }
        }
    }
}

/// Every name is a normalized header name and every value a valid header
/// value, as in any `http::HeaderMap`.
pub open spec fn headers_wf(hs: HeaderSeq) -> bool {
    forall|i: int| 0 <= i < hs.len() ==> {
        &&& header_name_spec(#[trigger] hs[i].0) == Some(hs[i].0)
        &&& header_value_ok(hs[i].1)
    }
}

pub open spec fn entry_wf(n: Seq<u8>, v: Seq<u8>) -> bool {
    header_name_spec(n) == Some(n) && header_value_ok(v)
}

/// `append` keeps every entry well formed when the new one is.
pub proof fn lemma_append_wf(hs: HeaderSeq, n: Seq<u8>, v: Seq<u8>)
    requires
        headers_wf(hs),
        entry_wf(n, v),
    ensures
        headers_wf(header_append(hs, n, v)),
{
    let r = header_append(hs, n, v);
    lemma_last_index(hs, n);
    let k = last_index(hs, n);
    assert forall|i: int| 0 <= i < r.len() implies {
        &&& header_name_spec(#[trigger] r[i].0) == Some(r[i].0)
        &&& header_value_ok(r[i].1)
    } by {
        if k < 0 {
            if i < hs.len() {
                assert(r[i] == hs[i]);
            }
        } else if i <= k {
            assert(r[i] == hs[i]);
        } else if i > k + 1 {
            assert(r[i] == hs[i - 1]);
        }
    }
}

/// `insert` keeps every entry well formed when the new one is.
pub proof fn lemma_insert_wf(hs: HeaderSeq, n: Seq<u8>, v: Seq<u8>, placed: bool)
    requires
        headers_wf(hs),
        entry_wf(n, v),
    ensures
        headers_wf(replace_from(hs, n, v, placed)),
    decreases hs.len(),
{
    let r = replace_from(hs, n, v, placed);
    if hs.len() > 0 {
        let t = hs.drop_first();
        assert(headers_wf(t)) by {
            assert forall|i: int| 0 <= i < t.len() implies {
                &&& header_name_spec(#[trigger] t[i].0) == Some(t[i].0)
                &&& header_value_ok(t[i].1)
            } by {
                assert(t[i] == hs[i + 1]);
            }
        }
        lemma_insert_wf(t, n, v, true);
        lemma_insert_wf(t, n, v, placed);
        assert forall|i: int| 0 <= i < r.len() implies {
            &&& header_name_spec(#[trigger] r[i].0) == Some(r[i].0)
            &&& header_value_ok(r[i].1)
        } by {
            if hs[0].0 == n {
                if !placed && i > 0 {
                    assert(r[i] == replace_from(t, n, v, true)[i - 1]);
                }
            } else if i > 0 {
                assert(r[i] == replace_from(t, n, v, placed)[i - 1]);
            } else {
                assert(r[0] == hs[0]);
            }
        }
    }
}

/// What the `content-length` header says: absent, a length, or unreadable.
pub enum LengthField {
    Absent,
    Length(usize),
    Invalid,
}

/// The lowercase name `content-length`.
pub open spec fn content_length_name() -> Seq<u8> {
    ascii_bytes("content-length"@)
}

/// The first `content-length` value read as `HeaderValue::to_str` followed by
/// `str::parse::<usize>` read it.
pub open spec fn content_length_field(hs: HeaderSeq) -> LengthField {
    match header_get(hs, content_length_name()) {
        None => LengthField::Absent,
        Some(v) => if all_visible_ascii(v) && parse_usize_spec(v).is_some() {
            LengthField::Length(parse_usize_spec(v).unwrap())
        } else {
            LengthField::Invalid
        },
    }
}

/// Reads the `content-length` header of a header list.
pub fn content_length_of(headers: &HeaderList) -> (r: LengthField)
    ensures
        r == content_length_field(headers@),
{
    proof {
        reveal_strlit("content-length");
    }
    let name = literal_bytes("content-length");
    proof {
        assert(name@ =~= seq![99u8, 111u8, 110u8, 116u8, 101u8, 110u8, 116u8, 45u8, 108u8, 101u8, 110u8, 103u8, 116u8, 104u8]);
        assert(lower_bytes(name@) =~= name@);
        assert(header_name_spec(name@) == Some(name@));
    }
    match headers.get(name.as_slice()) {
        None => LengthField::Absent,
        Some(v) => {
            if !is_visible_text(v.as_slice()) {
                return LengthField::Invalid;
            }
            match parse_usize(v.as_slice()) {
                Some(n) => LengthField::Length(n),
                None => LengthField::Invalid,
            }
        },
    }
}

/// Every parsed (name, value) pair is one that `http` accepts.
pub open spec fn raw_headers_ok(hs: HeaderSeq) -> bool {
    forall|i: int| 0 <= i < hs.len() ==> {
        &&& header_name_spec(#[trigger] hs[i].0).is_some()
        &&& header_value_ok(hs[i].1)
    }
}

/// The header map that `http`'s builders make by appending the parsed pairs
/// one after the other, names lowercased.
pub open spec fn build_headers(hs: HeaderSeq) -> HeaderSeq
    decreases hs.len(),
{
    if hs.len() == 0 {
        Seq::empty()
    } else {
        header_append(build_headers(hs.drop_last()), lower_bytes(hs.last().0), hs.last().1)
    }
}

/// Building a header map keeps one entry for each pair.
pub proof fn lemma_build_headers_len(hs: HeaderSeq)
    ensures
        build_headers(hs).len() == hs.len(),
    decreases hs.len(),
{
    if hs.len() > 0 {
        lemma_build_headers_len(hs.drop_last());
        lemma_last_index(build_headers(hs.drop_last()), lower_bytes(hs.last().0));
    }
}

/// The values of each header name stand together, as in an `http::HeaderMap`.
pub open spec fn headers_grouped(hs: HeaderSeq) -> bool {
    forall|i: int, j: int, k: int|
        #![trigger hs[i], hs[j], hs[k]]
        0 <= i < j < k < hs.len() && hs[i].0 == hs[k].0 ==> hs[j].0 == hs[i].0
}

/// A valid, grouped header list is what `http`'s builder makes of its own
/// (name, value) pairs.
pub proof fn lemma_build_headers_grouped(hs: HeaderSeq)
    requires
        headers_wf(hs),
        headers_grouped(hs),
    ensures
        build_headers(hs) == hs,
    decreases hs.len(),
{
    if hs.len() > 0 {
        let t = hs.drop_last();
        let x = hs.last();
        assert(headers_wf(t)) by {
            assert forall|i: int| 0 <= i < t.len() implies {
                &&& header_name_spec(#[trigger] t[i].0) == Some(t[i].0)
                &&& header_value_ok(t[i].1)
            } by {
                assert(t[i] == hs[i]);
            }
        }
        assert(headers_grouped(t)) by {
            assert forall|i: int, j: int, k: int|
                #![trigger t[i], t[j], t[k]]
                0 <= i < j < k < t.len() && t[i].0 == t[k].0 implies t[j].0 == t[i].0 by {
                assert(t[i] == hs[i] && t[j] == hs[j] && t[k] == hs[k]);
            }
        }
        lemma_build_headers_grouped(t);
        assert(header_name_spec(hs[hs.len() - 1].0) == Some(hs[hs.len() - 1].0));
        assert(lower_bytes(x.0) == x.0);
        lemma_last_index(t, x.0);
        let k = last_index(t, x.0);
        if k >= 0 {
            if k < t.len() - 1 {
                let j = t.len() - 1;
                assert(hs[k] == t[k] && hs[j] == t[j]);
                assert(hs[k].0 == hs[hs.len() - 1].0);
                assert(hs[j].0 == hs[k].0);
                assert(false);
            }
            assert(t.insert(k + 1, x) =~= hs);
        } else {
            assert(t.push(x) =~= hs);
        }
    }
}

/// A lowercased valid name is its own normal form.
pub proof fn lemma_lower_name(n: Seq<u8>)
    requires
        header_name_spec(n).is_some(),
    ensures
        header_name_spec(lower_bytes(n)) == Some(lower_bytes(n)),
{
    let l = lower_bytes(n);
    assert forall|i: int| 0 <= i < l.len() implies is_header_name_byte(#[trigger] l[i]) by {
        assert(is_header_name_byte(n[i]));
    }
    assert(lower_bytes(l) =~= l);
}

/// Builds the header map of a parsed head; `None` when `http` refuses a name or
/// a value.
pub fn build_header_list(pairs: &Vec<(Vec<u8>, Vec<u8>)>) -> (r: Option<HeaderList>)
    requires
        pairs@.len() < MAX_HEADER_VALUES,
    ensures
        r.is_some() == raw_headers_ok(pairs_view(pairs@)),
        r matches Some(l) ==> l@ == build_headers(pairs_view(pairs@)) && headers_wf(l@) && l@.len()
            == pairs@.len(),
{
    let ghost pv = pairs_view(pairs@);
    let mut list = HeaderList::new();
    let mut i: usize = 0;
    while i < pairs.len()
        invariant
            pv == pairs_view(pairs@),
            i <= pv.len(),
            list@ == build_headers(pv.take(i as int)),
            list@.len() == i,
            pairs@.len() < MAX_HEADER_VALUES,
            headers_wf(list@),
            raw_headers_ok(pv.take(i as int)),
        decreases pv.len() - i,
    {
        assert(pv[i as int] == (pairs@[i as int].0@, pairs@[i as int].1@));
        assert(pv.take(i + 1).drop_last() =~= pv.take(i as int));
        let name = match header_name_from_bytes(pairs[i].0.as_slice()) {
            Some(n) => n,
            None => {
                assert(!raw_headers_ok(pv)) by {
                    if raw_headers_ok(pv) {
                        assert(header_name_spec(pv[i as int].0).is_some());
                    }
                }
                return None;
            },
        };
        if !header_value_from_bytes(pairs[i].1.as_slice()) {
            assert(!raw_headers_ok(pv)) by {
                if raw_headers_ok(pv) {
                    assert(header_value_ok(pv[i as int].1));
                }
            }
            return None;
        }
        proof {
            lemma_lower_name(pv[i as int].0);
            lemma_append_wf(list@, name@, pv[i as int].1);
        }
        list.append(name, copy_bytes(pairs[i].1.as_slice()));
        proof {
            lemma_build_headers_len(pv.take(i + 1));
        }
        i += 1;
        assert(raw_headers_ok(pv.take(i as int))) by {
            assert forall|j: int| 0 <= j < i implies {
                &&& header_name_spec(#[trigger] pv.take(i as int)[j].0).is_some()
                &&& header_value_ok(pv.take(i as int)[j].1)
            } by {
                if j < i - 1 {
                    assert(pv.take(i as int)[j] == pv.take(i - 1)[j]);
                }
            }
        }
    }
    assert(pv.take(pv.len() as int) =~= pv);
    Some(list)
}

#[verifier::external_type_specification]
#[verifier::external_body]
#[verifier::reject_recursive_types(T)]
pub struct ExHeaderMap<T>(http::HeaderMap<T>);

#[verifier::external_type_specification]
#[verifier::external_body]
pub struct ExHeaderValue(http::HeaderValue);

/// The most values a header list is given: far below the point where
/// `http::HeaderMap` runs out of room and panics.
pub const MAX_HEADER_VALUES: usize = 4096;

/// What an `http::HeaderMap` holds, in the order its iterator yields it: each
/// name's values together, names in the order they first came in, as (name,
/// value) bytes.
pub uninterp spec fn header_map_entries(map: http::HeaderMap) -> Seq<(Seq<u8>, Seq<u8>)>;

/// `HeaderMap::new`: an empty map.
#[verifier::external_body]
fn header_map_new() -> (r: http::HeaderMap)
    ensures
        header_map_entries(r) == Seq::<(Seq<u8>, Seq<u8>)>::empty(),
{
    http::HeaderMap::new()
}

/// `HeaderMap::len`: the number of values, all names together.
#[verifier::external_body]
fn header_map_len(map: &http::HeaderMap) -> (r: usize)
    ensures
        r == header_map_entries(*map).len(),
{
    map.len()
}

/// `HeaderMap::get` with a name given as bytes: `get` normalizes a valid name
/// (lowercase) and gives the first value stored under it; bytes that are no
/// header name find nothing.
#[verifier::external_body]
fn header_map_get(map: &http::HeaderMap, name: &[u8]) -> (r: Option<Vec<u8>>)
    ensures
        match header_name_spec(name@) {
            Some(n) => match header_get(header_map_entries(*map), n) {
                Some(v) => r matches Some(w) && w@ == v,
                None => r is None,
            },
            None => r is None,
        },
{
    let key = http::header::HeaderName::from_bytes(name).ok()?;
    map.get(key).map(|v| v.as_bytes().to_vec())
}

/// `HeaderMap::append`: the value goes after the values its name already has
/// (`append_value` links it at the tail of the name's list), or a new name
/// with it is added at the end. Below `MAX_HEADER_VALUES` values the map has
/// room, so the call does not panic.
#[verifier::external_body]
fn header_map_append(map: &mut http::HeaderMap, name: &[u8], value: &[u8])
    requires
        header_name_spec(name@) is Some,
        header_value_ok(value@),
        header_map_entries(*old(map)).len() < MAX_HEADER_VALUES,
    ensures
        header_map_entries(*final(map)) == header_append(
            header_map_entries(*old(map)),
            header_name_spec(name@).unwrap(),
            value@,
        ),
{
    let key = http::header::HeaderName::from_bytes(name).unwrap();
    map.append(key, http::HeaderValue::from_bytes(value).unwrap());
}

/// `HeaderMap::insert`: a present name keeps its place and gets the value as
/// its only one (`insert_occupied` drops its other values); a new name with
/// the value is added at the end. Below `MAX_HEADER_VALUES` values the map
/// has room, so the call does not panic.
#[verifier::external_body]
fn header_map_insert(map: &mut http::HeaderMap, name: &[u8], value: &[u8])
    requires
        header_name_spec(name@) is Some,
        header_value_ok(value@),
        header_map_entries(*old(map)).len() < MAX_HEADER_VALUES,
    ensures
        header_map_entries(*final(map)) == header_insert(
            header_map_entries(*old(map)),
            header_name_spec(name@).unwrap(),
            value@,
        ),
{
    let key = http::header::HeaderName::from_bytes(name).unwrap();
    map.insert(key, http::HeaderValue::from_bytes(value).unwrap());
}

/// `HeaderMap::iter`: every (name, value) pair, as bytes, in the map's order.
#[verifier::external_body]
fn header_map_pairs(map: &http::HeaderMap) -> (r: Vec<(Vec<u8>, Vec<u8>)>)
    ensures
        pairs_view(r@) == header_map_entries(*map),
{
    map.iter().map(|(n, v)| (n.as_str().as_bytes().to_vec(), v.as_bytes().to_vec())).collect()
}

/// An ordered header list, kept in an `http::HeaderMap`.
pub struct HeaderList {
    map: http::HeaderMap,
}

impl View for HeaderList {
    type V = HeaderSeq;

    closed spec fn view(&self) -> HeaderSeq {
        header_map_entries(self.map)
    }
}

impl HeaderList {
    /// An empty list.
    pub fn new() -> (r: HeaderList)
        ensures
            r@ == Seq::<(Seq<u8>, Seq<u8>)>::empty(),
    {
        HeaderList { map: header_map_new() }
    }

    /// Number of values.
    pub fn len(&self) -> (r: usize)
        ensures
            r == self@.len(),
    {
        header_map_len(&self.map)
    }

    /// Every (name, value) pair, in order.
    pub fn pairs(&self) -> (r: Vec<(Vec<u8>, Vec<u8>)>)
        ensures
            pairs_view(r@) == self@,
    {
        header_map_pairs(&self.map)
    }

    /// The first value stored under `name`, which is looked up in its
    /// normalized (lowercase) form; bytes that are no header name find
    /// nothing.
    pub fn get(&self, name: &[u8]) -> (r: Option<Vec<u8>>)
        ensures
            match header_name_spec(name@) {
                Some(n) => match header_get(self@, n) {
                    Some(v) => r matches Some(w) && w@ == v,
                    None => r is None,
                },
                None => r is None,
            },
    {
        header_map_get(&self.map, name)
    }

    /// Adds a value under `name` after the values the name already has.
    pub fn append(&mut self, name: Vec<u8>, value: Vec<u8>)
        requires
            entry_wf(name@, value@),
            old(self)@.len() < MAX_HEADER_VALUES,
        ensures
            final(self)@ == header_append(old(self)@, name@, value@),
    {
        header_map_append(&mut self.map, name.as_slice(), value.as_slice());
    }

    /// Leaves `value` as the only value of `name`.
    pub fn insert(&mut self, name: Vec<u8>, value: Vec<u8>)
        requires
            entry_wf(name@, value@),
            old(self)@.len() < MAX_HEADER_VALUES,
        ensures
            final(self)@ == header_insert(old(self)@, name@, value@),
    {
        header_map_insert(&mut self.map, name.as_slice(), value.as_slice());
    }
}

/// Law: the length a request or response announces is read from its first
/// `content-length` value: a run of decimal digits that fits a `usize` is
/// that length, zero included; the header counts as absent only when there
/// is no `content-length` at all.
pub proof fn lemma_content_length_read(hs: HeaderSeq, v: Seq<u8>)
    requires
        header_get(hs, content_length_name()) == Some(v),
        v.len() > 0,
        all_digits(v),
        digits_value(v) <= usize::MAX,
    ensures
        content_length_field(hs) == LengthField::Length(digits_value(v) as usize),
{
    assert(v[0] != 43u8) by {
        assert(is_ascii_digit(v[0]));
    }
    assert(unsigned_digits(v) == v);
    assert(all_visible_ascii(v)) by {
        assert forall|i: int| 0 <= i < v.len() implies is_visible_ascii(#[trigger] v[i]) by {
            assert(is_ascii_digit(v[i]));
        }
    }
}

/// Law: `content_length_field` reports the header absent exactly when the
/// list has no `content-length`.
pub proof fn lemma_content_length_absent(hs: HeaderSeq)
    ensures
        (content_length_field(hs) is Absent) <==> header_get(hs, content_length_name()) is None,
{
}

} // verus!
