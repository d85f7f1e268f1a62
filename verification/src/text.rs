//! Character-level models of string matching, and the facts that connect them
//! to the UTF-8 bytes of a `str`.
use vstd::prelude::*;
use vstd::utf8::*;

verus! {

/// `p` occurs in `s` starting at index `i`.
pub open spec fn occurs_at<A>(s: Seq<A>, p: Seq<A>, i: int) -> bool {
    &&& 0 <= i
    &&& i + p.len() <= s.len()
    &&& s.subrange(i, i + p.len()) == p
}

/// `s` begins with `p`.
pub open spec fn starts_with<A>(s: Seq<A>, p: Seq<A>) -> bool {
    occurs_at(s, p, 0)
}

/// `p` occurs somewhere in `s`.
pub open spec fn contains<A>(s: Seq<A>, p: Seq<A>) -> bool {
    exists|i: int| occurs_at(s, p, i)
}

/// UTF-8 encoding distributes over concatenation.
pub proof fn lemma_encode_concat(a: Seq<char>, b: Seq<char>)
    ensures
        encode_utf8(a + b) == encode_utf8(a) + encode_utf8(b),
    decreases a.len(),
{
    if a.len() == 0 {
        assert(a + b =~= b);
        assert(encode_utf8(a) + encode_utf8(b) =~= encode_utf8(b));
    } else {
        lemma_encode_concat(a.drop_first(), b);
        assert((a + b).drop_first() =~= a.drop_first() + b);
        assert((a + b)[0] == a[0]);
        assert(encode_utf8(a + b) =~= encode_scalar(a[0] as u32) + encode_utf8(a.drop_first() + b));
        assert(encode_utf8(a) + encode_utf8(b) =~= encode_scalar(a[0] as u32) + (encode_utf8(a.drop_first()) + encode_utf8(b)));
    }
}


/// `k` is the index of the first occurrence of `p` in `s`.
pub open spec fn first_occurrence<A>(s: Seq<A>, p: Seq<A>, k: int) -> bool {
    &&& occurs_at(s, p, k)
    &&& forall|j: int| 0 <= j < k ==> !occurs_at(s, p, j)
}

/// The number of UTF-8 bytes taken by the first `k` characters of `s`.
pub open spec fn byte_offset(s: Seq<char>, k: int) -> int {
    encode_utf8(s.take(k)).len() as int
}

proof fn lemma_width_1(x: u32)
    by (bit_vector)
    requires
        0 <= x <= 0x7f,
    ensures
        (x & 0x7f) as u8 <= 0x7f,
{
}

proof fn lemma_width_2(x: u32)
    by (bit_vector)
    requires
        0x80 <= x <= 0x7ff,
    ensures
        0xc0 <= (0xc0 | ((x >> 6) & 0x1f) as u8) <= 0xdf,
        0x80 <= (0x80 | (x & 0x3f) as u8) <= 0xbf,
{
}

proof fn lemma_width_3(x: u32)
    by (bit_vector)
    requires
        0x800 <= x <= 0xffff,
    ensures
        0xe0 <= (0xe0 | ((x >> 12) & 0x0f) as u8) <= 0xef,
        0x80 <= (0x80 | ((x >> 6) & 0x3f) as u8) <= 0xbf,
        0x80 <= (0x80 | (x & 0x3f) as u8) <= 0xbf,
{
}

proof fn lemma_width_4(x: u32)
    by (bit_vector)
    requires
        0x10000 <= x <= 0x10ffff,
    ensures
        0xf0 <= (0xf0 | ((x >> 18) & 0x7) as u8) <= 0xf7,
        0x80 <= (0x80 | ((x >> 12) & 0x3f) as u8) <= 0xbf,
        0x80 <= (0x80 | ((x >> 6) & 0x3f) as u8) <= 0xbf,
        0x80 <= (0x80 | (x & 0x3f) as u8) <= 0xbf,
{
}

/// The encoding of one character: one to four bytes, a leading byte that
/// announces the width, then continuation bytes.
pub proof fn lemma_scalar_shape(c: char)
    ensures
        1 <= encode_scalar(c as u32).len() <= 4,
        !is_continuation_byte(encode_scalar(c as u32)[0]),
        forall|j: int|
            1 <= j < encode_scalar(c as u32).len() ==> is_continuation_byte(
                #[trigger] encode_scalar(c as u32)[j],
            ),
        encode_scalar(c as u32).len() == 1 <==> is_leading_byte_width_1(encode_scalar(c as u32)[0]),
        encode_scalar(c as u32).len() == 2 <==> is_leading_byte_width_2(encode_scalar(c as u32)[0]),
        encode_scalar(c as u32).len() == 3 <==> is_leading_byte_width_3(encode_scalar(c as u32)[0]),
        encode_scalar(c as u32).len() == 4 <==> is_leading_byte_width_4(encode_scalar(c as u32)[0]),
{
    let x = c as u32;
    char_is_scalar(c);
    if has_width_1_encoding(x) {
        lemma_width_1(x);
    } else if has_width_2_encoding(x) {
        lemma_width_2(x);
    } else if has_width_3_encoding(x) {
        lemma_width_3(x);
    } else {
        lemma_width_4(x);
    }
}

/// The encoding of a non-empty sequence starts with that of its first character.
pub proof fn lemma_encode_first(s: Seq<char>)
    requires
        s.len() > 0,
    ensures
        encode_utf8(s) == encode_scalar(s[0] as u32) + encode_utf8(s.drop_first()),
        encode_utf8(s).len() == encode_scalar(s[0] as u32).len() + encode_utf8(s.drop_first()).len(),
{
}

/// Every character takes at least one byte.
pub proof fn lemma_encode_len(s: Seq<char>)
    ensures
        encode_utf8(s).len() >= s.len(),
        encode_utf8(s).len() == 0 <==> s.len() == 0,
    decreases s.len(),
{
    if s.len() > 0 {
        lemma_scalar_shape(s[0]);
        lemma_encode_len(s.drop_first());
    }
}

/// Equal encodings come from equal character sequences.
pub proof fn lemma_encode_injective(a: Seq<char>, b: Seq<char>)
    requires
        encode_utf8(a) == encode_utf8(b),
    ensures
        a == b,
{
    encode_utf8_decode_utf8(a);
    encode_utf8_decode_utf8(b);
}

/// The bytes of `s` are those of its first `k` characters followed by those of the rest.
pub proof fn lemma_encode_split(s: Seq<char>, k: int)
    requires
        0 <= k <= s.len(),
    ensures
        encode_utf8(s) == encode_utf8(s.take(k)) + encode_utf8(s.skip(k)),
        encode_utf8(s.take(k)) == encode_utf8(s).take(byte_offset(s, k)),
        encode_utf8(s.skip(k)) == encode_utf8(s).skip(byte_offset(s, k)),
        0 <= byte_offset(s, k) <= encode_utf8(s).len(),
{
    assert(s =~= s.take(k) + s.skip(k));
    lemma_encode_concat(s.take(k), s.skip(k));
    assert(encode_utf8(s.take(k)) =~= encode_utf8(s).take(byte_offset(s, k)));
    assert(encode_utf8(s.skip(k)) =~= encode_utf8(s).skip(byte_offset(s, k)));
}

/// Byte offsets of character positions grow strictly with the position.
pub proof fn lemma_byte_offset_strict(s: Seq<char>, j: int, k: int)
    requires
        0 <= j < k <= s.len(),
    ensures
        byte_offset(s, j) < byte_offset(s, k),
{
    let t = s.take(k);
    assert(t.take(j) =~= s.take(j));
    lemma_encode_split(t, j);
    lemma_encode_len(t.skip(j));
}

/// Byte offset of one more character.
pub proof fn lemma_byte_offset_next(s: Seq<char>, k: int)
    requires
        0 <= k < s.len(),
    ensures
        byte_offset(s, k + 1) == byte_offset(s, k) + encode_scalar(s[k] as u32).len(),
{
    let t = s.take(k + 1);
    assert(t.take(k) =~= s.take(k));
    assert(t.skip(k) =~= seq![s[k]]);
    lemma_encode_split(t, k);
    assert(seq![s[k]].drop_first() =~= Seq::<char>::empty());
    lemma_encode_first(seq![s[k]]);
}


/// If the bytes of `p` begin the bytes of `s`, then `p` begins `s`: a UTF-8
/// leading byte fixes the width of a character, and its bytes fix the character.
pub proof fn lemma_bytes_prefix_to_chars(s: Seq<char>, p: Seq<char>)
    requires
        starts_with(encode_utf8(s), encode_utf8(p)),
    ensures
        starts_with(s, p),
    decreases p.len(),
{
    let b = encode_utf8(s);
    let q = encode_utf8(p);
    if p.len() == 0 {
        assert(s.subrange(0, 0) =~= p);
    } else {
        lemma_encode_len(p);
        lemma_encode_len(s);
        encode_utf8_first_scalar(s);
        encode_utf8_first_scalar(p);
        lemma_encode_first(s);
        lemma_encode_first(p);
        lemma_scalar_shape(s[0]);
        lemma_scalar_shape(p[0]);
        let w = encode_scalar(p[0] as u32).len() as int;
        assert(b[0] == q[0]) by {
            assert(b.subrange(0, q.len() as int)[0] == q[0]);
        }
        assert(forall|j: int| 0 <= j < w ==> b[j] == q[j]) by {
            assert forall|j: int| 0 <= j < w implies b[j] == q[j] by {
                assert(b.subrange(0, q.len() as int)[j] == q[j]);
            }
        }
        assert(decode_first_scalar(b) == decode_first_scalar(q));
        char_u32_cast(s[0], p[0] as u32);
        char_u32_cast(p[0], p[0] as u32);
        assert(s[0] == p[0]);
        let s1 = s.drop_first();
        let p1 = p.drop_first();
        assert(encode_utf8(s1) == b.skip(w));
        assert(encode_utf8(p1) == q.skip(w));
        assert(encode_utf8(s1).subrange(0, encode_utf8(p1).len() as int) =~= encode_utf8(p1)) by {
            assert forall|j: int| 0 <= j < encode_utf8(p1).len() implies encode_utf8(s1)[j]
                == encode_utf8(p1)[j] by {
                assert(b.subrange(0, q.len() as int)[w + j] == q[w + j]);
            }
        }
        lemma_bytes_prefix_to_chars(s1, p1);
        assert(s.subrange(0, p.len() as int) =~= p) by {
            assert forall|j: int| 0 <= j < p.len() implies s[j] == p[j] by {
                if j > 0 {
                    assert(s1.subrange(0, p1.len() as int)[j - 1] == p1[j - 1]);
                }
            }
        }
    }
}

/// An occurrence of `p` in `s` gives an occurrence of its bytes in the bytes
/// of `s`, at the byte offset of its character position.
pub proof fn lemma_chars_match_to_bytes(s: Seq<char>, p: Seq<char>, k: int)
    requires
        occurs_at(s, p, k),
    ensures
        occurs_at(encode_utf8(s), encode_utf8(p), byte_offset(s, k)),
{
    let rest = s.skip(k);
    lemma_encode_split(s, k);
    assert(rest =~= p + rest.skip(p.len() as int));
    lemma_encode_concat(p, rest.skip(p.len() as int));
    let b = encode_utf8(s);
    let i = byte_offset(s, k);
    assert(b.subrange(i, i + encode_utf8(p).len()) =~= encode_utf8(p));
}

/// An occurrence of the (non-empty) bytes of `p` in the bytes of `s` starts at
/// a character boundary, and there `p` occurs in `s`.
pub proof fn lemma_bytes_match_to_chars(s: Seq<char>, p: Seq<char>, i: int)
    requires
        p.len() > 0,
        occurs_at(encode_utf8(s), encode_utf8(p), i),
    ensures
        exists|k: int| 0 <= k <= s.len() && byte_offset(s, k) == i && occurs_at(s, p, k),
    decreases s.len(),
{
    let b = encode_utf8(s);
    let q = encode_utf8(p);
    lemma_encode_len(p);
    lemma_encode_len(s);
    lemma_encode_first(p);
    lemma_scalar_shape(p[0]);
    assert(s.take(0) =~= Seq::<char>::empty());
    if i == 0 {
        assert(b.subrange(0, q.len() as int) =~= b.subrange(i, i + q.len()));
        lemma_bytes_prefix_to_chars(s, p);
        assert(byte_offset(s, 0) == 0);
    } else {
        lemma_encode_first(s);
        lemma_scalar_shape(s[0]);
        let w = encode_scalar(s[0] as u32).len() as int;
        assert(b.subrange(i, i + q.len())[0] == q[0]);
        if i < w {
            assert(b[i] == encode_scalar(s[0] as u32)[i]);
            assert(false);
        } else {
            let s1 = s.drop_first();
            assert(encode_utf8(s1) == b.skip(w));
            assert(encode_utf8(s1).subrange(i - w, i - w + q.len()) =~= q) by {
                assert forall|j: int| 0 <= j < q.len() implies encode_utf8(s1).subrange(
                    i - w,
                    i - w + q.len(),
                )[j] == q[j] by {
                    assert(b.subrange(i, i + q.len())[j] == q[j]);
                }
            }
            lemma_bytes_match_to_chars(s1, p, i - w);
            let k1 = choose|k1: int|
                0 <= k1 <= s1.len() && byte_offset(s1, k1) == i - w && occurs_at(s1, p, k1);
            let k = k1 + 1;
            assert(s.take(k) =~= seq![s[0]] + s1.take(k1));
            assert(seq![s[0]] + s1.take(k1) =~= s.take(k));
            assert(s.take(k).drop_first() =~= s1.take(k1));
            assert(s.take(k)[0] == s[0]);
            lemma_encode_first(s.take(k));
            assert(byte_offset(s, k) == i);
            assert(s.subrange(k, k + p.len()) =~= s1.subrange(k1, k1 + p.len()));
            assert(occurs_at(s, p, k));
        }
    }
}

/// Byte offsets of character positions are character boundaries.
pub proof fn lemma_byte_offset_is_boundary(s: Seq<char>, k: int)
    requires
        0 <= k <= s.len(),
    ensures
        is_char_boundary(encode_utf8(s), byte_offset(s, k)),
    decreases s.len(),
{
    let b = encode_utf8(s);
    encode_utf8_valid_utf8(s);
    if k == 0 {
        assert(s.take(0) =~= Seq::<char>::empty());
    } else {
        lemma_encode_split(s, k);
        encode_utf8_first_scalar(s);
        lemma_encode_first(s);
        let s1 = s.drop_first();
        let w = encode_scalar(s[0] as u32).len() as int;
        assert(pop_first_scalar(b) =~= encode_utf8(s1));
        lemma_byte_offset_is_boundary(s1, k - 1);
        assert(s.take(k) =~= seq![s[0]] + s1.take(k - 1));
        assert(s.take(k).drop_first() =~= s1.take(k - 1));
        assert(s.take(k)[0] == s[0]);
        lemma_encode_first(s.take(k));
        assert(byte_offset(s, k) == w + byte_offset(s1, k - 1));
        assert(byte_offset(s, k) > 0) by {
            lemma_scalar_shape(s[0]);
        }
    }
}

/// Before the first occurrence of a non-empty pattern there is no occurrence
/// of it.
pub proof fn lemma_no_occurrence_before_first(s: Seq<char>, p: Seq<char>, k: int)
    requires
        p.len() > 0,
        0 <= k <= s.len(),
        forall|j: int| 0 <= j < k ==> !occurs_at(s, p, j),
    ensures
        !contains(s.take(k), p),
{
    if contains(s.take(k), p) {
        let j = choose|j: int| occurs_at(s.take(k), p, j);
        assert(s.subrange(j, j + p.len()) =~= s.take(k).subrange(j, j + p.len()));
        assert(occurs_at(s, p, j));
    }
}

/// Whether `needle` occurs in `hay` at byte index `i`.
fn bytes_occur_at(hay: &[u8], needle: &[u8], i: usize) -> (r: bool)
    ensures
        r == occurs_at(hay@, needle@, i as int),
{
    if i > hay.len() || needle.len() > hay.len() - i {
        return false;
    }
    let mut j: usize = 0;
    while j < needle.len()
        invariant
            i + needle@.len() <= hay.len(),
            j <= needle@.len(),
            forall|t: int| 0 <= t < j ==> hay@[i + t] == needle@[t],
        decreases needle@.len() - j,
    {
        if hay[i + j] != needle[j] {
            assert(hay@.subrange(i as int, i + needle@.len())[j as int] != needle@[j as int]);
            return false;
        }
        j = j + 1;
    }
    assert(hay@.subrange(i as int, i + needle@.len()) =~= needle@);
    true
}

/// The first byte index at which `needle` occurs in `hay`, if any.
fn find_bytes(hay: &[u8], needle: &[u8]) -> (r: Option<usize>)
    ensures
        match r {
            Some(i) => first_occurrence(hay@, needle@, i as int),
            None => !contains(hay@, needle@),
        },
{
    if needle.len() > hay.len() {
        return None;
    }
    let last = hay.len() - needle.len();
    let mut i: usize = 0;
    loop
        invariant
            last == hay@.len() - needle@.len(),
            i <= last,
            forall|j: int| 0 <= j < i ==> !occurs_at(hay@, needle@, j),
        decreases last - i,
    {
        if bytes_occur_at(hay, needle, i) {
            return Some(i);
        }
        if i == last {
            return None;
        }
        i = i + 1;
    }
}

/// The byte index at which the first occurrence of `p` in `s` starts, if any.
pub(crate) fn str_find(s: &str, p: &str) -> (r: Option<usize>)
    ensures
        encode_utf8(s@).len() <= usize::MAX,
        encode_utf8(p@).len() <= usize::MAX,
        match r {
            Some(i) => exists|k: int| first_occurrence(s@, p@, k) && i == byte_offset(s@, k),
            None => !contains(s@, p@),
        },
{
    let hay = s.as_bytes();
    let needle = p.as_bytes();
    proof {
        assert(hay@.len() == hay.len() && needle@.len() == needle.len());
    }
    let r = find_bytes(hay, needle);
    proof {
        let ss = s@;
        let pp = p@;
        match r {
            Some(i) => {
                if pp.len() == 0 {
                    assert(ss.subrange(0, 0) =~= pp);
                    assert(ss.take(0) =~= Seq::<char>::empty());
                    assert(first_occurrence(ss, pp, 0));
                    assert(byte_offset(ss, 0) == 0);
                    lemma_encode_len(pp);
                    assert(i == 0) by {
                        assert(hay@.subrange(0, 0) =~= needle@);
                        assert(occurs_at(hay@, needle@, 0));
                    }
                } else {
                    lemma_bytes_match_to_chars(ss, pp, i as int);
                    let k = choose|k: int|
                        0 <= k <= ss.len() && byte_offset(ss, k) == i && occurs_at(ss, pp, k);
                    assert forall|j: int| 0 <= j < k implies !occurs_at(ss, pp, j) by {
                        if occurs_at(ss, pp, j) {
                            lemma_chars_match_to_bytes(ss, pp, j);
                            lemma_byte_offset_strict(ss, j, k);
                        }
                    }
                    assert(first_occurrence(ss, pp, k));
                }
            },
            None => {
                if contains(ss, pp) {
                    let k = choose|k: int| occurs_at(ss, pp, k);
                    lemma_chars_match_to_bytes(ss, pp, k);
                }
            },
        }
    }
    r
}

/// Whether `s` begins with `p`.
pub(crate) fn str_starts_with(s: &str, p: &str) -> (r: bool)
    ensures
        r == starts_with(s@, p@),
{
    let r = bytes_occur_at(s.as_bytes(), p.as_bytes(), 0);
    proof {
        if r {
            lemma_bytes_prefix_to_chars(s@, p@);
        }
        if starts_with(s@, p@) {
            lemma_chars_match_to_bytes(s@, p@, 0);
            assert(s@.take(0) =~= Seq::<char>::empty());
        }
    }
    r
}

/// The part of `s` after its first `n` characters.
pub(crate) fn skip_chars(s: &str, n: usize) -> (r: &str)
    requires
        n <= s@.len(),
    ensures
        r@ == s@.skip(n as int),
{
    let bytes = s.as_bytes();
    let mut pos: usize = 0;
    let mut k: usize = 0;
    proof {
        assert(s@.take(0) =~= Seq::<char>::empty());
    }
    while k < n
        invariant
            n <= s@.len(),
            bytes@ == encode_utf8(s@),
            k <= n,
            pos == byte_offset(s@, k as int),
        decreases n - k,
    {
        proof {
            lemma_encode_split(s@, k as int);
            lemma_byte_offset_next(s@, k as int);
            let rest = s@.skip(k as int);
            lemma_encode_first(rest);
            lemma_scalar_shape(rest[0]);
            encode_utf8_first_scalar(rest);
            assert(bytes@[pos as int] == encode_utf8(rest)[0]);
            lemma_encode_split(s@, k + 1);
        }
        let lead = bytes[pos];
        let width: usize = if lead <= 0x7f {
            1
        } else if 0xc0 <= lead && lead <= 0xdf {
            2
        } else if 0xe0 <= lead && lead <= 0xef {
            3
        } else {
            4
        };
        pos = pos + width;
        k = k + 1;
    }
    proof {
        lemma_byte_offset_is_boundary(s@, n as int);
        lemma_encode_split(s@, n as int);
    }
    let (_, tail) = s.split_at(pos);
    proof {
        lemma_encode_injective(tail@, s@.skip(n as int));
    }
    tail
}

} // verus!
