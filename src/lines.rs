//! Splitting a payload into its newline-separated records.
use vstd::prelude::*;
use vstd::utf8::*;

verus! {

broadcast use vstd::seq::group_seq_axioms;

/// The newline byte.
pub const NEWLINE: u8 = 10;

/// Splitting the first `i` items of `b` on `sep`: the lines closed by a
/// newline so far, and where the line still open starts.
pub open spec fn split_upto<T>(b: Seq<T>, sep: T, i: nat) -> (Seq<Seq<T>>, int)
    decreases i,
{
    if i == 0 {
        (Seq::empty(), 0)
    } else {
        let (done, start) = split_upto(b, sep, (i - 1) as nat);
        if b[i - 1] == sep {
            (done.push(b.subrange(start, i - 1)), i as int)
        } else {
            (done, start)
        }
    }
}

/// The records of `b`, one per line: the items between separators, where a
/// separator at the very end closes the last record rather than opening an
/// empty one. An empty sequence holds no record.
pub open spec fn lines_of<T>(b: Seq<T>, sep: T) -> Seq<Seq<T>> {
    let (done, start) = split_upto(b, sep, b.len());
    if start < b.len() {
        done.push(b.subrange(start, b.len() as int))
    } else {
        done
    }
}

/// The records of a payload as text: each line decoded from UTF-8.
pub open spec fn text_lines(b: Seq<u8>) -> Seq<Seq<char>> {
    lines_of(b, NEWLINE).map_values(|l: Seq<u8>| decode_utf8(l))
}

/// A well-formed UTF-8 sequence splits at an ASCII byte into two
/// well-formed sequences.
pub proof fn lemma_utf8_split_at_ascii(b: Seq<u8>, k: int)
    requires
        valid_utf8(b),
        0 <= k < b.len(),
        b[k] < 0x80,
    ensures
        valid_utf8(b.subrange(0, k)),
        valid_utf8(b.subrange(k, b.len() as int)),
        valid_utf8(b.subrange(k + 1, b.len() as int)),
    decreases b.len(),
{
    if k == 0 {
        assert(b.subrange(0, 0) =~= Seq::<u8>::empty());
        assert(b.subrange(0, b.len() as int) =~= b);
        assert(pop_first_scalar(b) =~= b.subrange(1, b.len() as int));
    } else {
        let n = length_of_first_scalar(b);
        let rest = pop_first_scalar(b);
        assert(n <= k);
        lemma_utf8_split_at_ascii(rest, k - n);
        let head = b.subrange(0, k);
        assert(head.len() > 0);
        assert(valid_first_scalar(head));
        assert(pop_first_scalar(head) =~= rest.subrange(0, k - n));
        assert(rest.subrange(k - n, rest.len() as int) =~= b.subrange(k, b.len() as int));
        assert(rest.subrange(k - n + 1, rest.len() as int) =~= b.subrange(k + 1, b.len() as int));
    }
}

/// What splitting a prefix yields: where the open line starts, that it holds
/// no newline, and that the closed lines hold none either and stay
/// well-formed UTF-8 where `b` is.
pub proof fn lemma_split_upto(b: Seq<u8>, i: nat)
    requires
        i <= b.len(),
    ensures
        ({
            let (done, start) = split_upto(b, NEWLINE, i);
            &&& 0 <= start <= i
            &&& start == 0 || b[start - 1] == NEWLINE
            &&& forall|j: int| start <= j < i ==> b[j] != NEWLINE
            &&& forall|l: int, j: int|
                0 <= l < done.len() && 0 <= j < done[l].len() ==> done[l][j] != NEWLINE
            &&& valid_utf8(b) ==> forall|l: int| 0 <= l < done.len() ==> valid_utf8(#[trigger] done[l])
        }),
    decreases i,
{
    if i > 0 {
        lemma_split_upto(b, (i - 1) as nat);
        let (done, start) = split_upto(b, NEWLINE, (i - 1) as nat);
        if b[i - 1] == NEWLINE {
            let line = b.subrange(start, i - 1);
            if valid_utf8(b) {
                lemma_open_line_utf8(b, start, i - 1);
            }
            let (done2, _) = split_upto(b, NEWLINE, i);
            assert forall|l: int, j: int|
                0 <= l < done2.len() && 0 <= j < done2[l].len() implies done2[l][j] != NEWLINE by {
                if l == done.len() {
                    assert(done2[l] == line);
                    assert(line[j] == b[start + j]);
                }
            }
        }
    }
}

/// The bytes from the start of a line up to a newline, or to the end, are
/// well-formed UTF-8 where the whole is.
proof fn lemma_open_line_utf8(b: Seq<u8>, start: int, end: int)
    requires
        valid_utf8(b),
        0 <= start <= end <= b.len(),
        start == 0 || b[start - 1] == NEWLINE,
        end == b.len() || b[end] == NEWLINE,
    ensures
        valid_utf8(b.subrange(start, end)),
{
    let rest = b.subrange(start, b.len() as int);
    if start == 0 {
        assert(rest =~= b);
    } else {
        lemma_utf8_split_at_ascii(b, start - 1);
    }
    if end < b.len() {
        lemma_utf8_split_at_ascii(rest, end - start);
        assert(rest.subrange(0, end - start) =~= b.subrange(start, end));
    } else {
        assert(rest =~= b.subrange(start, end));
    }
}

/// No record holds a newline; where the payload is well-formed UTF-8 so is
/// every record; a payload that is not empty holds at least one record.
pub proof fn lemma_lines_of(b: Seq<u8>)
    ensures
        forall|l: int, j: int|
            0 <= l < lines_of(b, NEWLINE).len() && 0 <= j < lines_of(b, NEWLINE)[l].len() ==> lines_of(b, NEWLINE)[l][j]
                != NEWLINE,
        valid_utf8(b) ==> forall|l: int|
            0 <= l < lines_of(b, NEWLINE).len() ==> valid_utf8(#[trigger] lines_of(b, NEWLINE)[l]),
        b.len() > 0 ==> lines_of(b, NEWLINE).len() > 0,
{
    lemma_split_upto(b, b.len());
    let (done, start) = split_upto(b, NEWLINE, b.len());
    if start < b.len() {
        let last = b.subrange(start, b.len() as int);
        if valid_utf8(b) {
            lemma_open_line_utf8(b, start, b.len() as int);
        }
        assert forall|l: int, j: int|
            0 <= l < lines_of(b, NEWLINE).len() && 0 <= j < lines_of(b, NEWLINE)[l].len() implies lines_of(b, NEWLINE)[l][j]
                != NEWLINE by {
            if l == done.len() {
                assert(lines_of(b, NEWLINE)[l] == last);
                assert(last[j] == b[start + j]);
            }
        }
    } else if b.len() > 0 {
        let (d0, s0) = split_upto(b, NEWLINE, (b.len() - 1) as nat);
        lemma_split_upto(b, (b.len() - 1) as nat);
        assert(b[b.len() - 1] == NEWLINE);
    }
}

/// Every line followed by `sep`, one after the other: the text that writing
/// the lines out, one per line, produces.
pub open spec fn join_lines<T>(ls: Seq<Seq<T>>, sep: T) -> Seq<T>
    decreases ls.len(),
{
    if ls.len() == 0 {
        Seq::empty()
    } else {
        join_lines(ls.drop_last(), sep) + ls.last().push(sep)
    }
}

/// Splitting a prefix of `x + y` looks at `x` alone.
proof fn lemma_split_upto_prefix<T>(x: Seq<T>, y: Seq<T>, sep: T, i: nat)
    requires
        i <= x.len(),
    ensures
        split_upto(x + y, sep, i) == split_upto(x, sep, i),
    decreases i,
{
    if i > 0 {
        lemma_split_upto_prefix(x, y, sep, (i - 1) as nat);
        let (done, start) = split_upto(x, sep, (i - 1) as nat);
        assert((x + y)[i - 1] == x[i - 1]);
        if 0 <= start <= i - 1 {
            assert((x + y).subrange(start, i - 1) =~= x.subrange(start, i - 1));
        } else {
            lemma_split_upto_start(x, sep, (i - 1) as nat);
        }
    }
}

proof fn lemma_split_upto_start<T>(b: Seq<T>, sep: T, i: nat)
    ensures
        0 <= split_upto(b, sep, i).1 <= i,
    decreases i,
{
    if i > 0 {
        lemma_split_upto_start(b, sep, (i - 1) as nat);
    }
}

/// Appending a line and its separator to text that ends at a line break
/// adds that line and nothing else.
proof fn lemma_split_one_more<T>(j: Seq<T>, ls: Seq<Seq<T>>, l: Seq<T>, sep: T, k: nat)
    requires
        split_upto(j, sep, j.len()) == (ls, j.len() as int),
        forall|m: int| 0 <= m < l.len() ==> l[m] != sep,
        k <= l.len(),
    ensures
        split_upto(j + l.push(sep), sep, j.len() + k) == (ls, j.len() as int),
    decreases k,
{
    if k == 0 {
        lemma_split_upto_prefix(j, l.push(sep), sep, j.len());
    } else {
        lemma_split_one_more(j, ls, l, sep, (k - 1) as nat);
        assert((j + l.push(sep))[j.len() + k - 1] == l[k - 1]);
    }
}

proof fn lemma_split_joined<T>(ls: Seq<Seq<T>>, sep: T)
    requires
        forall|i: int, m: int| 0 <= i < ls.len() && 0 <= m < ls[i].len() ==> ls[i][m] != sep,
    ensures
        split_upto(join_lines(ls, sep), sep, join_lines(ls, sep).len()) == (
            ls,
            join_lines(ls, sep).len() as int,
        ),
    decreases ls.len(),
{
    if ls.len() > 0 {
        let front = ls.drop_last();
        let l = ls.last();
        lemma_split_joined(front, sep);
        let j = join_lines(front, sep);
        let t = j + l.push(sep);
        assert(forall|m: int| 0 <= m < l.len() ==> l[m] != sep) by {
            assert forall|m: int| 0 <= m < l.len() implies l[m] != sep by {
                assert(l == ls[ls.len() - 1]);
            }
        }
        lemma_split_one_more(j, front, l, sep, l.len());
        assert(t[j.len() + l.len() as int] == sep);
        assert(t.subrange(j.len() as int, j.len() + l.len() as int) =~= l);
        assert(front.push(l) =~= ls);
    }
}

/// Lines written out one per line, each followed by the separator, and
/// then split back on it come back as they were: same lines, same order,
/// none lost or repeated. A line must not hold the separator itself.
pub proof fn lemma_join_then_split<T>(ls: Seq<Seq<T>>, sep: T)
    requires
        forall|i: int, m: int| 0 <= i < ls.len() && 0 <= m < ls[i].len() ==> ls[i][m] != sep,
    ensures
        lines_of(join_lines(ls, sep), sep) == ls,
{
    lemma_split_joined(ls, sep);
}

/// Well-formed UTF-8 without a newline byte decodes to text without a
/// newline character.
pub proof fn lemma_decode_no_newline(b: Seq<u8>)
    requires
        valid_utf8(b),
        forall|j: int| 0 <= j < b.len() ==> b[j] != NEWLINE,
    ensures
        forall|j: int| 0 <= j < decode_utf8(b).len() ==> decode_utf8(b)[j] != '\n',
    decreases b.len(),
{
    if b.len() > 0 {
        let rest = pop_first_scalar(b);
        assert forall|j: int| 0 <= j < rest.len() implies rest[j] != NEWLINE by {
            assert(rest[j] == b[j + length_of_first_scalar(b)]);
        }
        lemma_decode_no_newline(rest);
        let v = decode_first_scalar(b);
        decode_utf8_first_scalar(b);
        if (v as char) == '\n' {
            let u: u32 = 10;
            assert(((v as char) as u32) == u);
            assert((u & 0x7f) as u8 == 10u8) by (bit_vector)
                requires
                    u == 10u32,
            ;
            assert(encode_scalar(u) =~= seq![10u8]);
            assert(take_first_scalar(b)[0] == b[0]);
        }
        let d = decode_utf8(b);
        assert(d =~= seq![v as char] + decode_utf8(rest));
    }
}

/// No decoded record holds a newline character.
pub proof fn lemma_text_lines_no_newline(b: Seq<u8>)
    requires
        valid_utf8(b),
    ensures
        forall|i: int, m: int|
            0 <= i < text_lines(b).len() && 0 <= m < text_lines(b)[i].len() ==> text_lines(b)[i][m]
                != '\n',
{
    lemma_lines_of(b);
    let ls = lines_of(b, NEWLINE);
    assert forall|i: int, m: int|
        0 <= i < text_lines(b).len() && 0 <= m < text_lines(b)[i].len() implies text_lines(b)[i][m]
            != '\n' by {
        assert(text_lines(b)[i] == decode_utf8(ls[i]));
        assert(valid_utf8(ls[i]));
        assert forall|j: int| 0 <= j < ls[i].len() implies ls[i][j] != NEWLINE by {}
        lemma_decode_no_newline(ls[i]);
    }
}

/// Relies on `std::str::from_utf8`: it accepts exactly the well-formed UTF-8
/// sequences, and the text it returns holds the characters they encode.
#[verifier::external_body]
fn utf8_str(b: &[u8]) -> (r: Option<&str>)
    ensures
        r is Some <==> valid_utf8(b@),
        r matches Some(s) ==> s@ == decode_utf8(b@),
{
    std::str::from_utf8(b).ok()
}

/// Whether the bytes are well-formed UTF-8.
pub fn is_utf8(b: &[u8]) -> (r: bool)
    ensures
        r == valid_utf8(b@),
{
    utf8_str(b).is_some()
}

/// The records of a well-formed UTF-8 payload, each as text, in order.
pub fn split_lines(b: &[u8]) -> (r: Vec<String>)
    requires
        valid_utf8(b@),
    ensures
        r@.map_values(|s: String| s@) == text_lines(b@),
{
    let mut out: Vec<String> = Vec::new();
    let mut start: usize = 0;
    let mut i: usize = 0;
    while i < b.len()
        invariant
            i <= b@.len(),
            valid_utf8(b@),
            split_upto(b@, NEWLINE, i as nat).1 == start as int,
            out@.map_values(|s: String| s@) == split_upto(b@, NEWLINE, i as nat).0.map_values(
                |l: Seq<u8>| decode_utf8(l),
            ),
        decreases b@.len() - i,
    {
        proof {
            lemma_split_upto(b@, i as nat);
        }
        if b[i] == NEWLINE {
            proof {
                lemma_open_line_utf8(b@, start as int, i as int);
            }
            let piece = &b[start..i];
            let ghost prev = out@;
            if let Some(s) = utf8_str(piece) {
                out.push(s.to_owned());
            }
            proof {
                let line = b@.subrange(start as int, i as int);
                assert(piece@ == line);
                assert(out@ =~= prev.push(out@.last()));
                assert(out@.last()@ == decode_utf8(line));
                let done = split_upto(b@, NEWLINE, i as nat).0;
                assert(split_upto(b@, NEWLINE, (i + 1) as nat).0 == done.push(line));
                assert(prev.map_values(|s: String| s@).len() == prev.len());
                assert(done.map_values(|l: Seq<u8>| decode_utf8(l)).len() == done.len());
                assert forall|k: int| 0 <= k < out@.len() implies #[trigger] out@[k]@ == decode_utf8(
                    done.push(line)[k],
                ) by {
                    assert(prev.map_values(|s: String| s@).len() == prev.len());
                    assert(done.map_values(|l: Seq<u8>| decode_utf8(l)).len() == done.len());
                    if k < prev.len() {
                        assert(out@[k] == prev[k]);
                        assert(prev.map_values(|s: String| s@)[k] == prev[k]@);
                        assert(done.map_values(|l: Seq<u8>| decode_utf8(l))[k] == decode_utf8(done[k]));
                    }
                }
                assert(out@.map_values(|s: String| s@) =~= done.push(line).map_values(
                    |l: Seq<u8>| decode_utf8(l),
                ));
            }
            start = i + 1;
        }
        i = i + 1;
    }
    proof {
        lemma_split_upto(b@, b@.len());
    }
    if start < b.len() {
        proof {
            lemma_open_line_utf8(b@, start as int, b@.len() as int);
        }
        let piece = &b[start..b.len()];
        let ghost prev = out@;
        if let Some(s) = utf8_str(piece) {
            out.push(s.to_owned());
        }
        proof {
            let line = b@.subrange(start as int, b@.len() as int);
            assert(piece@ == line);
            assert(out@ =~= prev.push(out@.last()));
            let done = split_upto(b@, NEWLINE, b@.len()).0;
            assert forall|k: int| 0 <= k < out@.len() implies #[trigger] out@[k]@ == decode_utf8(
                done.push(line)[k],
            ) by {
                if k < prev.len() {
                    assert(out@[k] == prev[k]);
                    assert(prev.map_values(|s: String| s@)[k] == prev[k]@);
                }
            }
            assert(out@.map_values(|s: String| s@) =~= done.push(line).map_values(
                |l: Seq<u8>| decode_utf8(l),
            ));
        }
    }
    assert(out@.map_values(|s: String| s@) =~= text_lines(b@));
    out
}

} // verus!
