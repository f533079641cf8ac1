//! Cutting texts at byte positions.
use vstd::prelude::*;

verus! {

/// The number of bytes that the first `n` characters of a text take.
pub open spec fn byte_offset(text: Seq<char>, n: int) -> int {
    vstd::utf8::encode_utf8(text.subrange(0, n)).len() as int
}

/// The bytes of a text are those of its parts.
proof fn lemma_encode_concat(a: Seq<char>, b: Seq<char>)
    ensures
        vstd::utf8::encode_utf8(a + b) == vstd::utf8::encode_utf8(a) + vstd::utf8::encode_utf8(b),
    decreases a.len(),
{
    if a.len() == 0 {
        assert(a + b =~= b);
    } else {
        lemma_encode_concat(a.drop_first(), b);
        assert((a + b).drop_first() =~= a.drop_first() + b);
        assert(vstd::utf8::encode_utf8(a + b) =~= vstd::utf8::encode_utf8(a)
            + vstd::utf8::encode_utf8(b));
    }
}

/// Texts with the same bytes are the same.
proof fn lemma_encode_injective(a: Seq<char>, b: Seq<char>)
    requires
        vstd::utf8::encode_utf8(a) == vstd::utf8::encode_utf8(b),
    ensures
        a == b,
{
    vstd::utf8::encode_utf8_decode_utf8(a);
    vstd::utf8::encode_utf8_decode_utf8(b);
}

/// The end of a part of a text is a boundary between characters.
proof fn lemma_boundary(a: Seq<char>, b: Seq<char>)
    ensures
        vstd::utf8::is_char_boundary(
            vstd::utf8::encode_utf8(a + b),
            vstd::utf8::encode_utf8(a).len() as int,
        ),
    decreases a.len(),
{
    let bytes = vstd::utf8::encode_utf8(a + b);
    vstd::utf8::encode_utf8_valid_utf8(a + b);
    if a.len() > 0 {
        lemma_boundary(a.drop_first(), b);
        assert((a + b).drop_first() =~= a.drop_first() + b);
        vstd::utf8::encode_utf8_first_scalar(a + b);
        assert(vstd::utf8::pop_first_scalar(bytes) =~= vstd::utf8::encode_utf8(
            a.drop_first() + b,
        ));
        lemma_encode_concat(a, b);
    }
}

/// Cutting a text into the parts `a` and `b` at the end of `a`.
proof fn lemma_cut(a: Seq<char>, b: Seq<char>)
    ensures
        ({
            let bytes = vstd::utf8::encode_utf8(a + b);
            let n = vstd::utf8::encode_utf8(a).len() as int;
            &&& vstd::utf8::is_char_boundary(bytes, n)
            &&& 0 <= n <= bytes.len()
            &&& bytes.subrange(0, n) == vstd::utf8::encode_utf8(a)
            &&& bytes.subrange(n, bytes.len() as int) == vstd::utf8::encode_utf8(b)
        }),
{
    lemma_encode_concat(a, b);
    lemma_boundary(a, b);
    let bytes = vstd::utf8::encode_utf8(a + b);
    let n = vstd::utf8::encode_utf8(a).len() as int;
    assert(bytes.subrange(0, n) =~= vstd::utf8::encode_utf8(a));
    assert(bytes.subrange(n, bytes.len() as int) =~= vstd::utf8::encode_utf8(b));
}

/// The part of a text between two byte positions, which stand for the positions `a` and
/// `b` between its characters.
pub(crate) fn slice<'a>(text: &'a str, from: usize, to: usize, a: Ghost<int>, b: Ghost<int>) -> (part:
    &'a str)
    requires
        0 <= a@ <= b@ <= text@.len(),
        from == byte_offset(text@, a@),
        to == byte_offset(text@, b@),
    ensures
        part@ == text@.subrange(a@, b@),
{
    proof {
        let whole = text@;
        let n = whole.len() as int;
        assert(whole.subrange(0, b@) + whole.subrange(b@, n) =~= whole);
        lemma_cut(whole.subrange(0, b@), whole.subrange(b@, n));
        let head = whole.subrange(0, b@);
        assert(head.subrange(0, a@) =~= whole.subrange(0, a@));
        assert(head.subrange(0, a@) + head.subrange(a@, b@) =~= head);
        lemma_cut(head.subrange(0, a@), head.subrange(a@, b@));
        assert(head.subrange(a@, b@) =~= whole.subrange(a@, b@));
    }
    let head = text.split_at(to).0;
    proof {
        lemma_encode_injective(head@, text@.subrange(0, b@));
    }
    let part = head.split_at(from).1;
    proof {
        lemma_encode_injective(part@, text@.subrange(a@, b@));
    }
    part
}

/// The part of a text from a byte position on, which stands for the position `a` between
/// its characters.
pub(crate) fn tail<'a>(text: &'a str, from: usize, a: Ghost<int>) -> (part: &'a str)
    requires
        0 <= a@ <= text@.len(),
        from == byte_offset(text@, a@),
    ensures
        part@ == text@.subrange(a@, text@.len() as int),
{
    proof {
        let whole = text@;
        let n = whole.len() as int;
        assert(whole.subrange(0, a@) + whole.subrange(a@, n) =~= whole);
        lemma_cut(whole.subrange(0, a@), whole.subrange(a@, n));
    }
    let part = text.split_at(from).1;
    proof {
        lemma_encode_injective(part@, text@.subrange(a@, text@.len() as int));
    }
    part
}

} // verus!
