//! The order of terms: Rust's order on strings, which compares the bytes of
//! their UTF-8 encodings lexicographically.
use vstd::prelude::*;
use vstd::utf8::*;

verus! {

/// Lexicographic order on byte strings: a proper prefix comes first.
pub open spec fn bytes_lt(a: Seq<u8>, b: Seq<u8>) -> bool
    decreases a.len(),
{
    if a.len() == 0 {
        b.len() > 0
    } else if b.len() == 0 {
        false
    } else if a[0] != b[0] {
        a[0] < b[0]
    } else {
        bytes_lt(a.drop_first(), b.drop_first())
    }
}

/// The order of terms: `a` sorts before `b` as Rust orders strings.
pub open spec fn term_lt(a: Seq<char>, b: Seq<char>) -> bool {
    bytes_lt(encode_utf8(a), encode_utf8(b))
}

pub proof fn lemma_bytes_lt_irreflexive(a: Seq<u8>)
    ensures
        !bytes_lt(a, a),
    decreases a.len(),
{
    if a.len() > 0 {
        lemma_bytes_lt_irreflexive(a.drop_first());
    }
}

pub proof fn lemma_bytes_lt_transitive(a: Seq<u8>, b: Seq<u8>, c: Seq<u8>)
    requires
        bytes_lt(a, b),
        bytes_lt(b, c),
    ensures
        bytes_lt(a, c),
    decreases a.len(),
{
    if a.len() > 0 && b.len() > 0 && c.len() > 0 && a[0] == b[0] && b[0] == c[0] {
        lemma_bytes_lt_transitive(a.drop_first(), b.drop_first(), c.drop_first());
    }
}

pub proof fn lemma_bytes_lt_total(a: Seq<u8>, b: Seq<u8>)
    ensures
        a == b || bytes_lt(a, b) || bytes_lt(b, a),
    decreases a.len(),
{
    if a.len() == 0 {
        if b.len() == 0 {
            assert(a =~= b);
        }
    } else if b.len() > 0 && a[0] == b[0] {
        lemma_bytes_lt_total(a.drop_first(), b.drop_first());
        if a.drop_first() == b.drop_first() {
            assert(a.drop_first().len() == b.drop_first().len());
            assert(a.len() == b.len());
            assert forall|k: int| 0 <= k < a.len() implies a[k] == b[k] by {
                if k > 0 {
                    assert(a[k] == a.drop_first()[k - 1]);
                    assert(b[k] == b.drop_first()[k - 1]);
                }
            }
            assert(a =~= b);
        }
    }
}

pub proof fn lemma_bytes_lt_asymmetric(a: Seq<u8>, b: Seq<u8>)
    requires
        bytes_lt(a, b),
    ensures
        !bytes_lt(b, a),
{
    if bytes_lt(b, a) {
        lemma_bytes_lt_transitive(a, b, a);
        lemma_bytes_lt_irreflexive(a);
    }
}

/// Two terms with the same encoding are the same term.
pub proof fn lemma_encode_utf8_injective(a: Seq<char>, b: Seq<char>)
    requires
        encode_utf8(a) == encode_utf8(b),
    ensures
        a == b,
{
    encode_utf8_decode_utf8(a);
    encode_utf8_decode_utf8(b);
}

/// `term_lt` is a strict total order.
pub proof fn lemma_term_lt_strict_total_order()
    ensures
        forall|a: Seq<char>| !term_lt(a, a),
        forall|a: Seq<char>, b: Seq<char>| #[trigger] term_lt(a, b) ==> !term_lt(b, a),
        forall|a: Seq<char>, b: Seq<char>, c: Seq<char>|
            #[trigger] term_lt(a, b) && #[trigger] term_lt(b, c) ==> term_lt(a, c),
        forall|a: Seq<char>, b: Seq<char>|
            a != b ==> #[trigger] term_lt(a, b) || #[trigger] term_lt(b, a),
{
    assert forall|a: Seq<char>| !term_lt(a, a) by {
        lemma_bytes_lt_irreflexive(encode_utf8(a));
    }
    assert forall|a: Seq<char>, b: Seq<char>| #[trigger] term_lt(a, b) implies !term_lt(b, a) by {
        lemma_bytes_lt_asymmetric(encode_utf8(a), encode_utf8(b));
    }
    assert forall|a: Seq<char>, b: Seq<char>, c: Seq<char>|
        #[trigger] term_lt(a, b) && #[trigger] term_lt(b, c) implies term_lt(a, c) by {
        lemma_bytes_lt_transitive(encode_utf8(a), encode_utf8(b), encode_utf8(c));
    }
    assert forall|a: Seq<char>, b: Seq<char>| a != b implies #[trigger] term_lt(a, b) || #[trigger] term_lt(b, a) by {
        lemma_bytes_lt_total(encode_utf8(a), encode_utf8(b));
        if encode_utf8(a) == encode_utf8(b) {
            lemma_encode_utf8_injective(a, b);
        }
    }
}

/// The outcome of comparing two terms.
pub enum TermOrder {
    Before,
    Same,
    After,
}

proof fn lemma_bytes_lt_common_prefix(a: Seq<u8>, b: Seq<u8>, i: int)
    requires
        0 <= i <= a.len(),
        i <= b.len(),
        forall|k: int| 0 <= k < i ==> a[k] == b[k],
    ensures
        bytes_lt(a, b) == bytes_lt(a.skip(i), b.skip(i)),
    decreases i,
{
    if i > 0 {
        lemma_bytes_lt_common_prefix(a.drop_first(), b.drop_first(), i - 1);
        assert(a.drop_first().skip(i - 1) =~= a.skip(i));
        assert(b.drop_first().skip(i - 1) =~= b.skip(i));
    } else {
        assert(a.skip(0) =~= a);
        assert(b.skip(0) =~= b);
    }
}

/// Compares two terms in Rust's order on strings.
pub fn compare_terms(a: &str, b: &str) -> (r: TermOrder)
    ensures
        r is Before <==> term_lt(a@, b@),
        r is Same <==> a@ == b@,
        r is After <==> term_lt(b@, a@),
{
    let x = a.as_bytes();
    let y = b.as_bytes();
    let ghost ea = encode_utf8(a@);
    let ghost eb = encode_utf8(b@);
    assert(x@ == ea);
    assert(y@ == eb);
    let mut i: usize = 0;
    while i < x.len() && i < y.len() && x[i] == y[i]
        invariant
            x@ == ea,
            y@ == eb,
            i <= x@.len(),
            i <= y@.len(),
            forall|k: int| 0 <= k < i ==> ea[k] == eb[k],
        decreases x@.len() - i,
    {
        i = i + 1;
    }
    proof {
        lemma_bytes_lt_common_prefix(ea, eb, i as int);
        lemma_bytes_lt_common_prefix(eb, ea, i as int);
        lemma_term_lt_strict_total_order();
    }
    if i == x.len() && i == y.len() {
        proof {
            assert(ea =~= eb);
            lemma_encode_utf8_injective(a@, b@);
        }
        TermOrder::Same
    } else if i == x.len() || (i < y.len() && x[i] < y[i]) {
        proof {
            if a@ == b@ {
                assert(ea.len() == eb.len());
            }
        }
        TermOrder::Before
    } else {
        proof {
            if a@ == b@ {
                assert(ea.len() == eb.len());
            }
        }
        TermOrder::After
    }
}


/// The first bytes of the encodings of the four widths lie in four
/// increasing ranges.
proof fn lemma_leading_byte_ranges(c: u32)
    by (bit_vector)
    ensures
        has_width_1_encoding(c) ==> leading_byte_width_1(c) < 0x80,
        has_width_2_encoding(c) ==> 0xC0 <= leading_byte_width_2(c) <= 0xDF,
        has_width_3_encoding(c) ==> 0xE0 <= leading_byte_width_3(c) <= 0xEF,
        has_width_4_encoding(c) ==> 0xF0 <= leading_byte_width_4(c) <= 0xF7,
{
}

proof fn lemma_width_1_order(u: u32, v: u32)
    by (bit_vector)
    requires
        has_width_1_encoding(u),
        has_width_1_encoding(v),
    ensures
        leading_byte_width_1(u) != leading_byte_width_1(v) ==> (leading_byte_width_1(u) < leading_byte_width_1(v)
            <==> u < v),
        leading_byte_width_1(u) == leading_byte_width_1(v) ==> u == v,
{
}

proof fn lemma_width_2_order(u: u32, v: u32)
    by (bit_vector)
    requires
        has_width_2_encoding(u),
        has_width_2_encoding(v),
    ensures
        leading_byte_width_2(u) != leading_byte_width_2(v) ==> (leading_byte_width_2(u) < leading_byte_width_2(v)
            <==> u < v),
        leading_byte_width_2(u) == leading_byte_width_2(v) && last_continuation_byte(u) != last_continuation_byte(v)
            ==> (last_continuation_byte(u) < last_continuation_byte(v) <==> u < v),
        leading_byte_width_2(u) == leading_byte_width_2(v) && last_continuation_byte(u) == last_continuation_byte(v)
            ==> u == v,
{
}

proof fn lemma_width_3_order(u: u32, v: u32)
    by (bit_vector)
    requires
        has_width_3_encoding(u),
        has_width_3_encoding(v),
    ensures
        leading_byte_width_3(u) != leading_byte_width_3(v) ==> (leading_byte_width_3(u) < leading_byte_width_3(v)
            <==> u < v),
        leading_byte_width_3(u) == leading_byte_width_3(v) && second_last_continuation_byte(u)
            != second_last_continuation_byte(v) ==> (second_last_continuation_byte(u) < second_last_continuation_byte(v)
            <==> u < v),
        leading_byte_width_3(u) == leading_byte_width_3(v) && second_last_continuation_byte(u)
            == second_last_continuation_byte(v) && last_continuation_byte(u) != last_continuation_byte(v)
            ==> (last_continuation_byte(u) < last_continuation_byte(v) <==> u < v),
        leading_byte_width_3(u) == leading_byte_width_3(v) && second_last_continuation_byte(u)
            == second_last_continuation_byte(v) && last_continuation_byte(u) == last_continuation_byte(v) ==> u == v,
{
}

proof fn lemma_width_4_order(u: u32, v: u32)
    by (bit_vector)
    requires
        has_width_4_encoding(u),
        has_width_4_encoding(v),
    ensures
        leading_byte_width_4(u) != leading_byte_width_4(v) ==> (leading_byte_width_4(u) < leading_byte_width_4(v)
            <==> u < v),
        leading_byte_width_4(u) == leading_byte_width_4(v) && third_last_continuation_byte(u)
            != third_last_continuation_byte(v) ==> (third_last_continuation_byte(u) < third_last_continuation_byte(v)
            <==> u < v),
        leading_byte_width_4(u) == leading_byte_width_4(v) && third_last_continuation_byte(u)
            == third_last_continuation_byte(v) && second_last_continuation_byte(u) != second_last_continuation_byte(v)
            ==> (second_last_continuation_byte(u) < second_last_continuation_byte(v) <==> u < v),
        leading_byte_width_4(u) == leading_byte_width_4(v) && third_last_continuation_byte(u)
            == third_last_continuation_byte(v) && second_last_continuation_byte(u) == second_last_continuation_byte(v)
            && last_continuation_byte(u) != last_continuation_byte(v) ==> (last_continuation_byte(u)
            < last_continuation_byte(v) <==> u < v),
        leading_byte_width_4(u) == leading_byte_width_4(v) && third_last_continuation_byte(u)
            == third_last_continuation_byte(v) && second_last_continuation_byte(u) == second_last_continuation_byte(v)
            && last_continuation_byte(u) == last_continuation_byte(v) ==> u == v,
{
}

/// Where two byte strings first differ, that byte decides their order.
proof fn lemma_bytes_lt_first_difference(p: Seq<u8>, q: Seq<u8>, i: int)
    requires
        0 <= i < p.len(),
        i < q.len(),
        forall|k: int| 0 <= k < i ==> p[k] == q[k],
        p[i] != q[i],
    ensures
        bytes_lt(p, q) == (p[i] < q[i]),
{
    lemma_bytes_lt_common_prefix(p, q, i);
    assert(p.skip(i)[0] == p[i]);
    assert(q.skip(i)[0] == q[i]);
}

/// A common first part leaves the order to what follows it.
proof fn lemma_bytes_lt_same_start(e: Seq<u8>, x: Seq<u8>, y: Seq<u8>)
    ensures
        bytes_lt(e + x, e + y) == bytes_lt(x, y),
{
    lemma_bytes_lt_common_prefix(e + x, e + y, e.len() as int);
    assert((e + x).skip(e.len() as int) =~= x);
    assert((e + y).skip(e.len() as int) =~= y);
}

/// The number of bytes in the encoding of a scalar.
spec fn scalar_width(c: u32) -> int {
    if has_width_1_encoding(c) {
        1
    } else if has_width_2_encoding(c) {
        2
    } else if has_width_3_encoding(c) {
        3
    } else {
        4
    }
}

/// The encodings of two different chars differ within both of them, and
/// where they first differ the smaller char has the smaller byte: UTF-8
/// keeps the order of scalar values.
proof fn lemma_scalar_encoding_order(u: char, v: char, x: Seq<u8>, y: Seq<u8>)
    requires
        u != v,
    ensures
        bytes_lt(encode_scalar(u as u32) + x, encode_scalar(v as u32) + y) == ((u as u32) < (v as u32)),
{
    let cu = u as u32;
    let cv = v as u32;
    char_is_scalar(u);
    char_is_scalar(v);
    char_u32_cast(u, cu);
    char_u32_cast(v, cv);
    assert(cu != cv);
    let eu = encode_scalar(cu);
    let ev = encode_scalar(cv);
    let p = eu + x;
    let q = ev + y;
    lemma_leading_byte_ranges(cu);
    lemma_leading_byte_ranges(cv);
    assert(p[0] == eu[0]);
    assert(q[0] == ev[0]);
    if scalar_width(cu) != scalar_width(cv) {
        lemma_bytes_lt_first_difference(p, q, 0);
    } else if scalar_width(cu) == 1 {
        lemma_width_1_order(cu, cv);
        lemma_bytes_lt_first_difference(p, q, 0);
    } else if scalar_width(cu) == 2 {
        lemma_width_2_order(cu, cv);
        assert(p[1] == eu[1]);
        assert(q[1] == ev[1]);
        if eu[0] != ev[0] {
            lemma_bytes_lt_first_difference(p, q, 0);
        } else {
            lemma_bytes_lt_first_difference(p, q, 1);
        }
    } else if scalar_width(cu) == 3 {
        lemma_width_3_order(cu, cv);
        assert(p[1] == eu[1]);
        assert(q[1] == ev[1]);
        assert(p[2] == eu[2]);
        assert(q[2] == ev[2]);
        if eu[0] != ev[0] {
            lemma_bytes_lt_first_difference(p, q, 0);
        } else if eu[1] != ev[1] {
            lemma_bytes_lt_first_difference(p, q, 1);
        } else {
            lemma_bytes_lt_first_difference(p, q, 2);
        }
    } else {
        lemma_width_4_order(cu, cv);
        assert(p[1] == eu[1]);
        assert(q[1] == ev[1]);
        assert(p[2] == eu[2]);
        assert(q[2] == ev[2]);
        assert(p[3] == eu[3]);
        assert(q[3] == ev[3]);
        if eu[0] != ev[0] {
            lemma_bytes_lt_first_difference(p, q, 0);
        } else if eu[1] != ev[1] {
            lemma_bytes_lt_first_difference(p, q, 1);
        } else if eu[2] != ev[2] {
            lemma_bytes_lt_first_difference(p, q, 2);
        } else {
            lemma_bytes_lt_first_difference(p, q, 3);
        }
    }
}

/// Rust's order on strings, seen on chars: a proper prefix sorts first, and
/// otherwise the first char where two terms differ decides, the one with the
/// smaller Unicode scalar value sorting first.
pub proof fn lemma_term_lt_char_order(a: Seq<char>, b: Seq<char>)
    ensures
        term_lt(a, b) <==> {
            ||| a.len() < b.len() && b.take(a.len() as int) == a
            ||| exists|i: int|
                #![trigger a[i], b[i]]
                0 <= i < a.len() && i < b.len() && a.take(i) == b.take(i) && (a[i] as u32) < (b[i] as u32)
        },
    decreases a.len(),
{
    let ea = encode_utf8(a);
    let eb = encode_utf8(b);
    if a.len() == 0 {
        if b.len() > 0 {
            assert(eb.len() >= encode_scalar(b[0] as u32).len());
            assert(b.take(0) =~= a);
        }
    } else if b.len() == 0 {
        assert(ea.len() >= encode_scalar(a[0] as u32).len());
    } else {
        let a1 = a.drop_first();
        let b1 = b.drop_first();
        lemma_term_lt_char_order(a1, b1);
        if a[0] == b[0] {
            lemma_bytes_lt_same_start(encode_scalar(a[0] as u32), encode_utf8(a1), encode_utf8(b1));
            assert(term_lt(a, b) == term_lt(a1, b1));
            // the prefix case carries over from the tails
            if a.len() < b.len() && b.take(a.len() as int) == a {
                assert(b1.take(a1.len() as int) =~= a1) by {
                    assert forall|k: int| 0 <= k < a1.len() implies b1.take(a1.len() as int)[k] == a1[k] by {
                        assert(b.take(a.len() as int)[k + 1] == a[k + 1]);
                    }
                }
            }
            if a1.len() < b1.len() && b1.take(a1.len() as int) == a1 {
                assert(b.take(a.len() as int) =~= a) by {
                    assert forall|k: int| 0 <= k < a.len() implies b.take(a.len() as int)[k] == a[k] by {
                        if k > 0 {
                            assert(b1.take(a1.len() as int)[k - 1] == a1[k - 1]);
                        }
                    }
                }
            }
            // so does the first difference, one char further on
            if exists|i: int| #![trigger a1[i], b1[i]]
                0 <= i < a1.len() && i < b1.len() && a1.take(i) == b1.take(i) && (a1[i] as u32) < (b1[i] as u32) {
                let i = choose|i: int| #![trigger a1[i], b1[i]]
                    0 <= i < a1.len() && i < b1.len() && a1.take(i) == b1.take(i) && (a1[i] as u32) < (b1[i] as u32);
                let j = i + 1;
                assert(a.take(j) =~= b.take(j)) by {
                    assert forall|k: int| 0 <= k < j implies a.take(j)[k] == b.take(j)[k] by {
                        if k > 0 {
                            assert(a1.take(i)[k - 1] == b1.take(i)[k - 1]);
                        }
                    }
                }
                assert(a[i + 1] == a1[i] && b[i + 1] == b1[i]);
            }
            if exists|i: int| #![trigger a[i], b[i]]
                0 <= i < a.len() && i < b.len() && a.take(i) == b.take(i) && (a[i] as u32) < (b[i] as u32) {
                let i = choose|i: int| #![trigger a[i], b[i]]
                    0 <= i < a.len() && i < b.len() && a.take(i) == b.take(i) && (a[i] as u32) < (b[i] as u32);
                assert(i > 0);
                let j = i - 1;
                assert(a1.take(j) =~= b1.take(j)) by {
                    assert forall|k: int| 0 <= k < j implies a1.take(j)[k] == b1.take(j)[k] by {
                        assert(a.take(i)[k + 1] == b.take(i)[k + 1]);
                    }
                }
                assert(a1[i - 1] == a[i] && b1[i - 1] == b[i]);
            }
        } else {
            lemma_scalar_encoding_order(a[0], b[0], encode_utf8(a1), encode_utf8(b1));
            assert(term_lt(a, b) == ((a[0] as u32) < (b[0] as u32)));
            if a.len() < b.len() && b.take(a.len() as int) == a {
                assert(b.take(a.len() as int)[0] == b[0]);
            }
            if (a[0] as u32) < (b[0] as u32) {
                assert(a.take(0) =~= b.take(0));
            }
            if exists|i: int| #![trigger a[i], b[i]]
                0 <= i < a.len() && i < b.len() && a.take(i) == b.take(i) && (a[i] as u32) < (b[i] as u32) {
                let i = choose|i: int| #![trigger a[i], b[i]]
                    0 <= i < a.len() && i < b.len() && a.take(i) == b.take(i) && (a[i] as u32) < (b[i] as u32);
                if i > 0 {
                    assert(a.take(i)[0] == a[0]);
                    assert(b.take(i)[0] == b[0]);
                }
            }
        }
    }
}

/// A proper prefix of a term sorts before it.
pub proof fn lemma_proper_prefix_sorts_first(a: Seq<char>, b: Seq<char>)
    requires
        a.len() < b.len(),
        b.take(a.len() as int) == a,
    ensures
        term_lt(a, b),
        !term_lt(b, a),
{
    lemma_term_lt_char_order(a, b);
    lemma_term_lt_strict_total_order();
}

} // verus!
