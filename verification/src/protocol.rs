//! The line protocol between the radar plugin and its helper process.
//!
//! A request is one line naming two points, each as three numeric fields:
//! `(x, y, z), (x, y, z)`. A numeric field is a non-empty run of the bytes
//! `0`-`9`, `.` and `-`. The helper answers each request with one line,
//! `true` when the two points see each other and `false` otherwise.
use vstd::prelude::*;

verus! {

/// The number of numeric fields in a request.
pub const FIELD_COUNT: usize = 6;

/// A byte that may stand in a numeric field: a digit, `.` or `-`.
pub open spec fn is_number_byte(b: u8) -> bool {
    (48 <= b && b <= 57) || b == 46 || b == 45
}

/// The end of the run of numeric bytes of `s` that starts at `i`: the first
/// index at or after `i` that holds no numeric byte, or the length of `s`.
pub open spec fn run_end(s: Seq<u8>, i: int) -> int
    decreases s.len() - i,
{
    if 0 <= i < s.len() && is_number_byte(s[i]) {
        run_end(s, i + 1)
    } else {
        i
    }
}

/// What follows numeric field `k` of a request: `, ` inside a point,
/// `), (` between the two points, and `)` after the last field.
pub open spec fn separator(k: int) -> Seq<u8> {
    if k == 2 {
        seq![41u8, 44u8, 32u8, 40u8]
    } else if k == 5 {
        seq![41u8]
    } else {
        seq![44u8, 32u8]
    }
}

/// The spans (start, end) of numeric fields `k..6` of a request whose field
/// `k` starts at `i` in `s`, or `None` where `s` does not go on as a request
/// from there. Each field is a maximal non-empty run of numeric bytes.
pub open spec fn fields_from(s: Seq<u8>, i: int, k: int) -> Option<Seq<(int, int)>>
    decreases 6 - k,
{
    if k < 0 || k >= 6 {
        Some(Seq::empty())
    } else {
        let e = run_end(s, i);
        let sep = separator(k);
        if i < e && e + sep.len() <= s.len() && s.subrange(e, e + sep.len()) == sep {
            match fields_from(s, e + sep.len(), k + 1) {
                Some(rest) => Some(seq![(i, e)] + rest),
                None => None,
            }
        } else {
            None
        }
    }
}

/// The field spans of a request that starts with its `(` at index `p` of `s`.
pub open spec fn request_at(s: Seq<u8>, p: int) -> Option<Seq<(int, int)>> {
    if 0 <= p < s.len() && s[p] == 40u8 {
        fields_from(s, p + 1, 0)
    } else {
        None
    }
}

/// The field spans of the leftmost request in `s` at or after index `p`.
pub open spec fn first_request(s: Seq<u8>, p: int) -> Option<Seq<(int, int)>>
    decreases s.len() - p,
{
    if 0 <= p < s.len() {
        match request_at(s, p) {
            Some(spans) => Some(spans),
            None => first_request(s, p + 1),
        }
    } else {
        None
    }
}

/// A span of `usize` indices taken as a span of integers.
pub open spec fn span_view(span: (usize, usize)) -> (int, int) {
    (span.0 as int, span.1 as int)
}

/// The bytes of the reply that carries `visible`: `true` or `false`.
pub open spec fn reply_bytes(visible: bool) -> Seq<u8> {
    if visible {
        seq![116u8, 114u8, 117u8, 101u8]
    } else {
        seq![102u8, 97u8, 108u8, 115u8, 101u8]
    }
}

/// The bytes of the request for numeric fields `k..6`, each followed by its
/// separator.
pub open spec fn request_tail(fields: Seq<Seq<u8>>, k: int) -> Seq<u8>
    decreases 6 - k,
{
    if 0 <= k < 6 {
        fields[k] + separator(k) + request_tail(fields, k + 1)
    } else {
        Seq::empty()
    }
}

/// The bytes of the request `(f0, f1, f2), (f3, f4, f5)`.
pub open spec fn request_bytes(fields: Seq<Seq<u8>>) -> Seq<u8> {
    seq![40u8] + request_tail(fields, 0)
}

/// The spans that fields `k..6` occupy in a request whose field `k` starts at
/// `start`.
pub open spec fn field_spans(fields: Seq<Seq<u8>>, k: int, start: int) -> Seq<(int, int)>
    decreases 6 - k,
{
    if 0 <= k < 6 {
        seq![(start, start + fields[k].len())] + field_spans(
            fields,
            k + 1,
            start + fields[k].len() + separator(k).len(),
        )
    } else {
        Seq::empty()
    }
}

/// A field that a request can carry: a non-empty run of numeric bytes.
pub open spec fn is_number_field(field: Seq<u8>) -> bool {
    &&& field.len() > 0
    &&& forall|j: int| 0 <= j < field.len() ==> #[trigger] is_number_byte(field[j])
}

/// A run of numeric bytes from `i` up to a non-numeric byte (or the end) at
/// `m` ends at `m`.
proof fn lemma_run_end_over(s: Seq<u8>, i: int, m: int)
    requires
        0 <= i <= m <= s.len(),
        forall|j: int| i <= j < m ==> #[trigger] is_number_byte(s[j]),
        m == s.len() || !is_number_byte(s[m]),
    ensures
        run_end(s, i) == m,
    decreases m - i,
{
    if i < m {
        lemma_run_end_over(s, i + 1, m);
    }
}

/// Where `s` goes on from `i` with the bytes of fields `k..6` and their
/// separators (whatever follows them), those fields are read back at their
/// spans.
proof fn lemma_fields_of_tail(fields: Seq<Seq<u8>>, s: Seq<u8>, i: int, k: int)
    requires
        0 <= k <= 6,
        fields.len() == 6,
        forall|j: int| 0 <= j < 6 ==> #[trigger] is_number_field(fields[j]),
        0 <= i,
        i + request_tail(fields, k).len() <= s.len(),
        s.subrange(i, i + request_tail(fields, k).len()) == request_tail(fields, k),
    ensures
        fields_from(s, i, k) == Some(field_spans(fields, k, i)),
        field_spans(fields, k, i).len() == 6 - k,
        forall|j: int|
            0 <= j < 6 - k ==> s.subrange(
                (#[trigger] field_spans(fields, k, i)[j]).0,
                field_spans(fields, k, i)[j].1,
            ) == fields[k + j],
    decreases 6 - k,
{
    if k < 6 {
        let f = fields[k];
        let sep = separator(k);
        let rest = request_tail(fields, k + 1);
        let t = s.subrange(i, i + request_tail(fields, k).len());
        let m = i + f.len();
        assert(is_number_field(fields[k]));
        assert(t == f + sep + rest);
        assert forall|j: int| i <= j < m implies #[trigger] is_number_byte(s[j]) by {
            assert(s[j] == t[j - i]);
            assert(t[j - i] == f[j - i]);
        }
        assert(s[m] == t[m - i]);
        assert(t[m - i] == sep[0]);
        lemma_run_end_over(s, i, m);
        assert(s.subrange(m, m + sep.len()) =~= sep) by {
            assert forall|j: int| 0 <= j < sep.len() implies s.subrange(m, m + sep.len())[j]
                == sep[j] by {
                assert(s[m + j] == t[m + j - i]);
                assert(t[m + j - i] == (f + sep)[m + j - i]);
            }
        }
        let n = m + sep.len();
        assert(s.subrange(n, n + rest.len()) =~= rest) by {
            assert forall|j: int| 0 <= j < rest.len() implies s.subrange(n, n + rest.len())[j]
                == rest[j] by {
                assert(s[n + j] == t[n + j - i]);
            }
        }
        lemma_fields_of_tail(fields, s, n, k + 1);
        assert(s.subrange(i, m) =~= f) by {
            assert forall|j: int| 0 <= j < f.len() implies s.subrange(i, m)[j] == f[j] by {
                assert(s[i + j] == t[j]);
            }
        }
        let spans = field_spans(fields, k, i);
        let rest_spans = field_spans(fields, k + 1, n);
        assert(spans == seq![(i, m)] + rest_spans);
        assert forall|j: int| 0 <= j < 6 - k implies s.subrange(
            (#[trigger] spans[j]).0,
            spans[j].1,
        ) == fields[k + j] by {
            if j > 0 {
                assert(spans[j] == rest_spans[j - 1]);
                assert(k + 1 + (j - 1) == k + j);
            }
        }
    }
}

/// The run that starts at `i` is made of digits, `.` and `-`, and ends within
/// `s`.
proof fn lemma_run_end_bytes(s: Seq<u8>, i: int)
    requires
        0 <= i <= s.len(),
    ensures
        i <= run_end(s, i) <= s.len(),
        forall|q: int|
            i <= q < run_end(s, i) ==> {
                let b = #[trigger] s[q];
                b == 45u8 || b == 46u8 || (48u8 <= b && b <= 57u8)
            },
    decreases s.len() - i,
{
    if i < s.len() && is_number_byte(s[i]) {
        lemma_run_end_bytes(s, i + 1);
    }
}

/// What `fields_from` reads: `6 - k` spans, each a non-empty run of digits,
/// `.` and `-` inside `s` that is followed by its separator, the first
/// starting at `i` and each next one right after the previous separator.
proof fn lemma_fields_from_shape(s: Seq<u8>, i: int, k: int)
    requires
        0 <= k <= 6,
        0 <= i <= s.len(),
    ensures
        fields_from(s, i, k) matches Some(sp) ==> {
            &&& sp.len() == 6 - k
            &&& (k < 6 ==> sp[0].0 == i)
            &&& forall|j: int|
                0 <= j < 6 - k ==> {
                    let st = (#[trigger] sp[j]).0;
                    let en = sp[j].1;
                    let sep = separator(k + j);
                    &&& 0 <= st < en
                    &&& en + sep.len() <= s.len()
                    &&& s.subrange(en, en + sep.len()) == sep
                    &&& (forall|q: int|
                        st <= q < en ==> {
                            let b = #[trigger] s[q];
                            b == 45u8 || b == 46u8 || (48u8 <= b && b <= 57u8)
                        })
                    &&& (j + 1 < 6 - k ==> sp[j + 1].0 == en + sep.len())
                }
        },
    decreases 6 - k,
{
    if k < 6 {
        lemma_run_end_bytes(s, i);
        let e = run_end(s, i);
        let sep = separator(k);
        if i < e && e + sep.len() <= s.len() && s.subrange(e, e + sep.len()) == sep {
            let n = e + sep.len();
            lemma_fields_from_shape(s, n, k + 1);
            match fields_from(s, n, k + 1) {
                Some(rest) => {
                    let sp = seq![(i, e)] + rest;
                    assert(fields_from(s, i, k) == Some(sp));
                    assert forall|j: int| 0 <= j < 6 - k implies {
                        let st = (#[trigger] sp[j]).0;
                        let en = sp[j].1;
                        let sep = separator(k + j);
                        &&& 0 <= st < en
                        &&& en + sep.len() <= s.len()
                        &&& s.subrange(en, en + sep.len()) == sep
                        &&& (forall|q: int|
                            st <= q < en ==> {
                                let b = #[trigger] s[q];
                                b == 45u8 || b == 46u8 || (48u8 <= b && b <= 57u8)
                            })
                        &&& (j + 1 < 6 - k ==> sp[j + 1].0 == en + sep.len())
                    } by {
                        if j > 0 {
                            assert(sp[j] == rest[j - 1]);
                            assert(k + 1 + (j - 1) == k + j);
                            if j + 1 < 6 - k {
                                assert(sp[j + 1] == rest[j]);
                            }
                        } else {
                            if 1 < 6 - k {
                                assert(sp[1] == rest[0]);
                            }
                        }
                    }
                },
                None => {},
            }
        }
    }
}

/// Every request that is read back has the shape of a request: a `(` at `p`,
/// then six non-empty runs of digits, `.` and `-`, the first right after the
/// `(`, each followed by its separator (`, `, `), (` or the closing `)`),
/// and each next run right after the previous separator.
pub proof fn lemma_request_at_shape(s: Seq<u8>, p: int)
    ensures
        request_at(s, p) matches Some(sp) ==> {
            &&& 0 <= p < s.len()
            &&& s[p] == 40u8
            &&& sp.len() == 6
            &&& sp[0].0 == p + 1
            &&& forall|j: int|
                0 <= j < 6 ==> {
                    let st = (#[trigger] sp[j]).0;
                    let en = sp[j].1;
                    let sep = separator(j);
                    &&& 0 <= st < en
                    &&& en + sep.len() <= s.len()
                    &&& s.subrange(en, en + sep.len()) == sep
                    &&& (forall|q: int|
                        st <= q < en ==> {
                            let b = #[trigger] s[q];
                            b == 45u8 || b == 46u8 || (48u8 <= b && b <= 57u8)
                        })
                    &&& (j + 1 < 6 ==> sp[j + 1].0 == en + sep.len())
                }
        },
{
    if 0 <= p < s.len() && s[p] == 40u8 {
        lemma_fields_from_shape(s, p + 1, 0);
    }
}

/// The request that is read back is the leftmost one: it stands at some `p`
/// at or after `from`, and no request stands between `from` and `p`; where
/// none is read back, no request stands anywhere at or after `from`.
pub proof fn lemma_first_request_leftmost(s: Seq<u8>, from: int)
    requires
        0 <= from,
    ensures
        first_request(s, from) matches Some(sp) ==> exists|p: int|
            from <= p < s.len() && request_at(s, p) == Some(sp) && forall|q: int|
                from <= q < p ==> (#[trigger] request_at(s, q)) is None,
        first_request(s, from) is None ==> forall|q: int|
            from <= q ==> (#[trigger] request_at(s, q)) is None,
    decreases s.len() - from,
{
    if from < s.len() {
        lemma_first_request_leftmost(s, from + 1);
        match request_at(s, from) {
            Some(sp) => {
                assert(request_at(s, from) == Some(sp));
            },
            None => {
                match first_request(s, from + 1) {
                    Some(sp) => {
                        let p = choose|p: int|
                            from + 1 <= p < s.len() && request_at(s, p) == Some(sp) && forall|
                                q: int,
                            | from + 1 <= q < p ==> (#[trigger] request_at(s, q)) is None;
                        assert forall|q: int| from <= q < p implies (#[trigger] request_at(
                            s,
                            q,
                        )) is None by {
                            if q > from {
                            }
                        }
                    },
                    None => {},
                }
            },
        }
    } else {
        assert forall|q: int| from <= q implies (#[trigger] request_at(s, q)) is None by {}
    }
}

/// The layout of a request line: `(` f0 `, ` f1 `, ` f2 `), (` f3 `, ` f4
/// `, ` f5 `)`, and nothing else; so its length is 14 plus the lengths of the
/// six fields.
pub proof fn lemma_request_layout(fields: Seq<Seq<u8>>)
    requires
        fields.len() == 6,
    ensures
        request_bytes(fields) == seq![40u8] + (fields[0] + (seq![44u8, 32u8] + (fields[1] + (
        seq![44u8, 32u8] + (fields[2] + (seq![41u8, 44u8, 32u8, 40u8] + (fields[3] + (seq![
            44u8,
            32u8,
        ] + (fields[4] + (seq![44u8, 32u8] + (fields[5] + seq![41u8]))))))))))),
        request_bytes(fields).len() == 14 + fields[0].len() + fields[1].len() + fields[2].len()
            + fields[3].len() + fields[4].len() + fields[5].len(),
{
    let e5 = fields[5] + seq![41u8];
    let e4 = fields[4] + (seq![44u8, 32u8] + e5);
    let e3 = fields[3] + (seq![44u8, 32u8] + e4);
    let e2 = fields[2] + (seq![41u8, 44u8, 32u8, 40u8] + e3);
    let e1 = fields[1] + (seq![44u8, 32u8] + e2);
    let e0 = fields[0] + (seq![44u8, 32u8] + e1);
    assert(request_tail(fields, 6) =~= Seq::<u8>::empty());
    assert(request_tail(fields, 5) =~= e5);
    assert(request_tail(fields, 4) =~= e4) by {
        assert(request_tail(fields, 4) == fields[4] + separator(4) + request_tail(fields, 5));
    }
    assert(request_tail(fields, 3) =~= e3) by {
        assert(request_tail(fields, 3) == fields[3] + separator(3) + request_tail(fields, 4));
    }
    assert(request_tail(fields, 2) =~= e2) by {
        assert(request_tail(fields, 2) == fields[2] + separator(2) + request_tail(fields, 3));
    }
    assert(request_tail(fields, 1) =~= e1) by {
        assert(request_tail(fields, 1) == fields[1] + separator(1) + request_tail(fields, 2));
    }
    assert(request_tail(fields, 0) =~= e0) by {
        assert(request_tail(fields, 0) == fields[0] + separator(0) + request_tail(fields, 1));
    }    assert(e5.len() == fields[5].len() + 1);
    assert(e4.len() == fields[4].len() + 2 + e5.len());
    assert(e3.len() == fields[3].len() + 2 + e4.len());
    assert(e2.len() == fields[2].len() + 4 + e3.len());
    assert(e1.len() == fields[1].len() + 2 + e2.len());
    assert(e0.len() == fields[0].len() + 2 + e1.len());
    assert(request_bytes(fields) == seq![40u8] + e0);
    assert(request_bytes(fields).len() == 1 + e0.len());
}

/// A request built from six non-empty fields of digits, `.` and `-` is read
/// back as those six fields, whatever follows it on the line (a newline, say):
/// the leftmost request starts at the first byte, it has six spans, and the
/// bytes at each span are the field that was put there.
pub proof fn lemma_request_roundtrip(fields: Seq<Seq<u8>>, suffix: Seq<u8>)
    requires
        fields.len() == 6,
        forall|k: int| 0 <= k < 6 ==> #[trigger] fields[k].len() > 0,
        forall|k: int, j: int|
            0 <= k < 6 && 0 <= j < fields[k].len() ==> {
                let b = #[trigger] fields[k][j];
                b == 45u8 || b == 46u8 || (48u8 <= b && b <= 57u8)
            },
    ensures
        first_request(request_bytes(fields) + suffix, 0) == Some(field_spans(fields, 0, 1)),
        field_spans(fields, 0, 1).len() == 6,
        forall|k: int|
            0 <= k < 6 ==> (request_bytes(fields) + suffix).subrange(
                (#[trigger] field_spans(fields, 0, 1)[k]).0,
                field_spans(fields, 0, 1)[k].1,
            ) == fields[k],
{
    let r = request_bytes(fields);
    let s = r + suffix;
    assert forall|k: int| 0 <= k < 6 implies #[trigger] is_number_field(fields[k]) by {
        assert(fields[k].len() > 0);
        assert forall|j: int| 0 <= j < fields[k].len() implies #[trigger] is_number_byte(
            fields[k][j],
        ) by {
            let b = fields[k][j];
            assert(b == 45u8 || b == 46u8 || (48u8 <= b && b <= 57u8));
        }
    }
    let tl: int = request_tail(fields, 0).len() as int;
    assert(r.len() == 1 + tl);
    assert(s.subrange(1, 1 + tl) =~= request_tail(fields, 0)) by {
        assert forall|j: int| 0 <= j < tl implies s.subrange(1, 1 + tl)[j] == request_tail(
            fields,
            0,
        )[j] by {
            assert(s[1 + j] == r[1 + j]);
        }
    }
    lemma_fields_of_tail(fields, s, 1, 0);
    assert(s[0] == 40u8);
    assert forall|k: int| 0 <= k < 6 implies (request_bytes(fields) + suffix).subrange(
        (#[trigger] field_spans(fields, 0, 1)[k]).0,
        field_spans(fields, 0, 1)[k].1,
    ) == fields[k] by {
        assert(s.subrange(field_spans(fields, 0, 1)[k].0, field_spans(fields, 0, 1)[k].1)
            == fields[1 - 1 + k]);
    }
}

/// A reply is read back as the verdict that it was written for; the two
/// replies are the ASCII words `true` and `false`.
pub proof fn lemma_reply_roundtrip(visible: bool)
    ensures
        (reply_bytes(visible) == reply_bytes(true)) == visible,
        reply_bytes(true) == seq![116u8, 114u8, 117u8, 101u8],
        reply_bytes(false) == seq![102u8, 97u8, 108u8, 115u8, 101u8],
{
    if !visible {
        assert(reply_bytes(visible).len() != reply_bytes(true).len());
    }
}

fn is_number_byte_exec(b: u8) -> (r: bool)
    ensures
        r == is_number_byte(b),
{
    (48u8 <= b && b <= 57u8) || b == 46u8 || b == 45u8
}

/// The end of the run of numeric bytes of `s` that starts at `i`.
fn scan_run(s: &[u8], i: usize) -> (e: usize)
    requires
        i <= s.len(),
    ensures
        e as int == run_end(s@, i as int),
        i <= e <= s.len(),
{
    let mut j = i;
    while j < s.len() && is_number_byte_exec(s[j])
        invariant
            i <= j <= s.len(),
            run_end(s@, j as int) == run_end(s@, i as int),
        decreases s.len() - j,
    {
        j = j + 1;
    }
    j
}

/// Whether the separator that follows field `k` stands in `s` at index `e`.
fn separator_at(s: &[u8], e: usize, k: usize) -> (r: bool)
    requires
        k < 6,
        e <= s.len(),
    ensures
        r == (e + separator(k as int).len() <= s.len() && s@.subrange(
            e as int,
            e + separator(k as int).len(),
        ) == separator(k as int)),
{
    let ghost sep = separator(k as int);
    if k == 2 {
        if s.len() - e >= 4 && s[e] == 41u8 && s[e + 1] == 44u8 && s[e + 2] == 32u8 && s[e + 3]
            == 40u8 {
            assert(s@.subrange(e as int, e + 4) =~= sep);
            true
        } else {
            proof {
                if e + 4 <= s.len() && s@.subrange(e as int, e + 4) == sep {
                    assert(s@.subrange(e as int, e + 4)[0] == s@[e as int]);
                    assert(s@.subrange(e as int, e + 4)[1] == s@[e + 1]);
                    assert(s@.subrange(e as int, e + 4)[2] == s@[e + 2]);
                    assert(s@.subrange(e as int, e + 4)[3] == s@[e + 3]);
                }
            }
            false
        }
    } else if k == 5 {
        if s.len() - e >= 1 && s[e] == 41u8 {
            assert(s@.subrange(e as int, e + 1) =~= sep);
            true
        } else {
            proof {
                if e + 1 <= s.len() && s@.subrange(e as int, e + 1) == sep {
                    assert(s@.subrange(e as int, e + 1)[0] == s@[e as int]);
                }
            }
            false
        }
    } else {
        if s.len() - e >= 2 && s[e] == 44u8 && s[e + 1] == 32u8 {
            assert(s@.subrange(e as int, e + 2) =~= sep);
            true
        } else {
            proof {
                if e + 2 <= s.len() && s@.subrange(e as int, e + 2) == sep {
                    assert(s@.subrange(e as int, e + 2)[0] == s@[e as int]);
                    assert(s@.subrange(e as int, e + 2)[1] == s@[e + 1]);
                }
            }
            false
        }
    }
}

fn separator_len(k: usize) -> (n: usize)
    requires
        k < 6,
    ensures
        n == separator(k as int).len(),
{
    if k == 2 {
        4
    } else if k == 5 {
        1
    } else {
        2
    }
}

/// The field spans of the request whose `(` stands at index `p` of `line`.
fn request_at_exec(line: &[u8], p: usize) -> (r: Option<Vec<(usize, usize)>>)
    requires
        p < line.len(),
    ensures
        match r {
            Some(spans) => request_at(line@, p as int) == Some(spans@.map_values(|sp| span_view(sp))),
            None => request_at(line@, p as int) is None,
        },
{
    if line[p] != 40u8 {
        return None;
    }
    let ghost s = line@;
    let start = p + 1;
    let mut spans: Vec<(usize, usize)> = Vec::new();
    let mut i = start;
    let mut k: usize = 0;
    proof {
        match fields_from(s, start as int, 0) {
            Some(rest) => {
                assert(spans@.map_values(|sp| span_view(sp)) + rest =~= rest);
            },
            None => {},
        }
    }
    while k < FIELD_COUNT
        invariant
            s == line@,
            k <= 6,
            start <= i <= line.len(),
            spans.len() == k,
            start == p + 1,
            match fields_from(s, i as int, k as int) {
                Some(rest) => fields_from(s, start as int, 0) == Some(
                    spans@.map_values(|sp| span_view(sp)) + rest,
                ),
                None => fields_from(s, start as int, 0) is None,
            },
        decreases FIELD_COUNT - k,
    {
        let e = scan_run(line, i);
        let sep_len = separator_len(k);
        if e == i || !separator_at(line, e, k) {
            return None;
        }
        let ghost old_spans = spans@.map_values(|sp| span_view(sp));
        spans.push((i, e));
        proof {
            let new_spans = spans@.map_values(|sp| span_view(sp));
            assert(new_spans =~= old_spans.push((i as int, e as int)));
            match fields_from(s, (e + sep_len) as int, (k + 1) as int) {
                Some(rest) => {
                    assert(old_spans + (seq![(i as int, e as int)] + rest) =~= new_spans + rest);
                },
                None => {},
            }
        }
        i = e + sep_len;
        k = k + 1;
    }
    assert(fields_from(s, i as int, 6) == Some(Seq::<(int, int)>::empty()));
    assert(spans@.map_values(|sp| span_view(sp)) + Seq::<(int, int)>::empty() =~= spans@.map_values(
        |sp| span_view(sp),
    ));
    Some(spans)
}

/// Finds the leftmost request in a line of input and returns the spans of its
/// six numeric fields, in order: the first point's x, y and z, then the
/// second point's. Returns `None` where the line holds no request.
pub fn parse_request(line: &[u8]) -> (r: Option<Vec<(usize, usize)>>)
    ensures
        match r {
            Some(spans) => first_request(line@, 0) == Some(spans@.map_values(|sp| span_view(sp))),
            None => first_request(line@, 0) is None,
        },
        r matches Some(spans) ==> first_request(line@, 0) matches Some(sp) && sp.len()
            == spans.len() && forall|j: int|
            0 <= j < spans.len() ==> (#[trigger] spans@[j]).0 as int == sp[j].0 && spans@[j].1 as int
                == sp[j].1,
{
    let mut p: usize = 0;
    while p < line.len()
        invariant
            p <= line.len(),
            first_request(line@, 0) == first_request(line@, p as int),
        decreases line.len() - p,
    {
        match request_at_exec(line, p) {
            Some(spans) => {
                assert(spans@.map_values(|sp| span_view(sp)).len() == spans.len());
                return Some(spans);
            },
            None => {},
        }
        p = p + 1;
    }
    None
}

/// Builds the request line `(f0, f1, f2), (f3, f4, f5)` from the text of the
/// six coordinates.
pub fn encode_request(fields: &Vec<Vec<u8>>) -> (line: Vec<u8>)
    requires
        fields.len() == FIELD_COUNT,
    ensures
        line@ == request_bytes(fields.deep_view()),
{
    let ghost f = fields.deep_view();
    let mut line: Vec<u8> = Vec::new();
    line.push(40u8);
    let mut k: usize = 0;
    while k < FIELD_COUNT
        invariant
            f == fields.deep_view(),
            fields.len() == 6,
            k <= 6,
            line@ + request_tail(f, k as int) == request_bytes(f),
        decreases FIELD_COUNT - k,
    {
        let field = &fields[k];
        let ghost before = line@;
        assert(f[k as int] == field@);
        let mut j: usize = 0;
        while j < field.len()
            invariant
                0 <= j <= field.len(),
                line@ == before + field@.subrange(0, j as int),
            decreases field.len() - j,
        {
            line.push(field[j]);
            assert(field@.subrange(0, j + 1) =~= field@.subrange(0, j as int).push(field@[j as int]));
            j = j + 1;
        }
        assert(field@.subrange(0, field.len() as int) =~= field@);
        if k == 2 {
            line.push(41u8);
            line.push(44u8);
            line.push(32u8);
            line.push(40u8);
        } else if k == 5 {
            line.push(41u8);
        } else {
            line.push(44u8);
            line.push(32u8);
        }
        assert(line@ =~= before + f[k as int] + separator(k as int));
        assert(request_tail(f, k as int) == f[k as int] + separator(k as int) + request_tail(
            f,
            k + 1,
        ));
        assert(before + (f[k as int] + separator(k as int) + request_tail(f, k + 1)) =~= line@
            + request_tail(f, k + 1));
        k = k + 1;
    }
    assert(line@ + request_tail(f, 6) =~= line@);
    line
}

/// The answer line that the helper writes: `true` where the points see each other.
pub fn encode_reply(visible: bool) -> (line: Vec<u8>)
    ensures
        line@ == reply_bytes(visible),
{
    let mut line: Vec<u8> = Vec::new();
    if visible {
        line.push(116u8);
        line.push(114u8);
        line.push(117u8);
        line.push(101u8);
    } else {
        line.push(102u8);
        line.push(97u8);
        line.push(108u8);
        line.push(115u8);
        line.push(101u8);
    }
    assert(line@ =~= reply_bytes(visible));
    line
}

/// Reads a reply line: the points see each other exactly where the line is
/// `true`; any other line counts as a refusal.
pub fn decode_reply(line: &[u8]) -> (visible: bool)
    ensures
        visible == (line@ == reply_bytes(true)),
{
    if line.len() == 4 && line[0] == 116u8 && line[1] == 114u8 && line[2] == 117u8 && line[3]
        == 101u8 {
        assert(line@ =~= reply_bytes(true));
        true
    } else {
        proof {
            if line@ == reply_bytes(true) {
                assert(line@[0] == reply_bytes(true)[0]);
                assert(line@[1] == reply_bytes(true)[1]);
                assert(line@[2] == reply_bytes(true)[2]);
                assert(line@[3] == reply_bytes(true)[3]);
            }
        }
        false
    }
}

} // verus!
