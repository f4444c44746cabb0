use vstd::prelude::*;
use vstd::string::StringSliceAdditionalSpecFns;
use vstd::utf8::{
    encode_utf8, encode_utf8_decode_utf8, encode_utf8_valid_utf8, is_char_boundary,
    is_char_boundary_iff_not_is_continuation_byte, is_char_boundary_start_end_of_seq,
};

verus! {

/// The terms of `s`: the pieces between single space characters, in order.
/// Consecutive spaces give empty terms, and so does an empty `s`.
pub open spec fn split_on_space(s: Seq<char>) -> Seq<Seq<char>>
    decreases s.len(),
{
    if s.len() == 0 {
        seq![Seq::empty()]
    } else {
        let init = split_on_space(s.drop_last());
        if s.last() == ' ' {
            init.push(Seq::empty())
        } else {
            init.update(init.len() - 1, init.last().push(s.last()))
        }
    }
}

/// A string without a space character is a single term.
pub proof fn lemma_split_no_space(s: Seq<char>)
    requires
        !s.contains(' '),
    ensures
        split_on_space(s) == seq![s],
    decreases s.len(),
{
    if s.len() > 0 {
        let p = s.drop_last();
        assert(!p.contains(' ')) by {
            if p.contains(' ') {
                let k = choose|k: int| 0 <= k < p.len() && p[k] == ' ';
                assert(s[k] == ' ');
            }
        }
        lemma_split_no_space(p);
        assert(s.last() != ' ') by {
            assert(s[s.len() - 1] == s.last());
        }
        assert(p.push(s.last()) =~= s);
        assert(split_on_space(s) =~= seq![s]);
    } else {
        assert(s =~= Seq::empty());
    }
}

proof fn lemma_split_nonempty(s: Seq<char>)
    ensures
        split_on_space(s).len() >= 1,
    decreases s.len(),
{
    if s.len() > 0 {
        lemma_split_nonempty(s.drop_last());
    }
}

/// Text that starts with a space-free piece and a space splits into that
/// piece followed by the terms of the remainder.
proof fn lemma_split_first(a: Seq<char>, b: Seq<char>)
    requires
        !a.contains(' '),
    ensures
        split_on_space(a + seq![' '] + b) == seq![a] + split_on_space(b),
    decreases b.len(),
{
    let s = a + seq![' '] + b;
    lemma_split_no_space(a);
    if b.len() == 0 {
        assert(s.drop_last() =~= a);
        assert(s.last() == ' ');
        assert(split_on_space(s) =~= seq![a] + split_on_space(b));
    } else {
        let p = b.drop_last();
        lemma_split_first(a, p);
        lemma_split_nonempty(p);
        assert(s.drop_last() =~= a + seq![' '] + p);
        assert(s.last() == b.last());
        assert(split_on_space(s) =~= seq![a] + split_on_space(b));
    }
}

proof fn lemma_encode_concat(a: Seq<char>, b: Seq<char>)
    ensures
        encode_utf8(a + b) == encode_utf8(a) + encode_utf8(b),
    decreases a.len(),
{
    if a.len() == 0 {
        assert(a + b =~= b);
        assert(encode_utf8(a) + encode_utf8(b) =~= encode_utf8(b));
    } else {
        lemma_encode_concat(a.drop_first(), b);
        assert((a + b).drop_first() =~= a.drop_first() + b);
        assert((a + b)[0] == a[0]);
        assert(encode_utf8(a + b) =~= encode_utf8(a) + encode_utf8(b));
    }
}

proof fn lemma_encode_space()
    ensures
        encode_utf8(seq![' ']) == seq![32u8],
{
    assert(seq![' '].drop_first() =~= Seq::<char>::empty());
    assert((' ' as u32) == 32u32);
    assert((32u32 & 0x7Fu32) == 32u32) by (bit_vector);
    assert(encode_utf8(Seq::<char>::empty()) =~= Seq::<u8>::empty());
    assert(encode_utf8(seq![' ']) =~= seq![32u8]);
}

/// Where `cs` has a space, its encoding has the byte 32.
proof fn lemma_space_byte(cs: Seq<char>, k: int)
    requires
        0 <= k < cs.len(),
        cs[k] == ' ',
    ensures
        encode_utf8(cs.take(k)).len() < encode_utf8(cs).len(),
        encode_utf8(cs)[encode_utf8(cs.take(k)).len() as int] == 32u8,
{
    let rest = cs.skip(k + 1);
    assert(cs =~= cs.take(k) + seq![' '] + rest);
    lemma_encode_concat(cs.take(k) + seq![' '], rest);
    lemma_encode_concat(cs.take(k), seq![' ']);
    lemma_encode_space();
}

/// Splits `text` on the space character, keeping punctuation and empty pieces.
pub fn tokenize(text: &str) -> (r: Vec<String>)
    ensures
        r@.map_values(|t: String| t@) == split_on_space(text@),
{
    let mut tokens: Vec<String> = Vec::new();
    let mut rest: &str = text;
    assert(tokens@.map_values(|t: String| t@) + split_on_space(rest@) =~= split_on_space(text@));
    loop
        invariant
            tokens@.map_values(|t: String| t@) + split_on_space(rest@) == split_on_space(text@),
        decreases rest@.len(),
    {
        let bytes = rest.as_bytes();
        let ghost whole = rest.spec_bytes();
        proof {
            assert(whole == encode_utf8(rest@));
            encode_utf8_valid_utf8(rest@);
        }
        let mut p: usize = 0;
        while p < bytes.len() && bytes[p] != 32
            invariant
                bytes@ == whole,
                p <= whole.len(),
                forall|q: int| 0 <= q < p ==> whole[q] != 32u8,
            decreases whole.len() - p,
        {
            p = p + 1;
        }
        if p == bytes.len() {
            assert(!rest@.contains(' ')) by {
                if rest@.contains(' ') {
                    let k = choose|k: int| 0 <= k < rest@.len() && rest@[k] == ' ';
                    lemma_space_byte(rest@, k);
                }
            }
            proof {
                lemma_split_no_space(rest@);
            }
            let ghost before = tokens@.map_values(|t: String| t@);
            let last = rest.to_owned();
            tokens.push(last);
            assert(tokens@.map_values(|t: String| t@) =~= before + split_on_space(rest@));
            return tokens;
        }
        proof {
            is_char_boundary_iff_not_is_continuation_byte(whole, p as int);
        }
        let (piece, tail) = rest.split_at(p);
        let ghost tail_bytes = tail.spec_bytes();
        proof {
            assert(tail_bytes == encode_utf8(tail@));
            encode_utf8_valid_utf8(tail@);
            assert(tail_bytes[0] == 32u8);
            if tail_bytes.len() == 1 {
                is_char_boundary_start_end_of_seq(tail_bytes);
            } else {
                reveal_with_fuel(is_char_boundary, 2);
            }
        }
        let (_, after) = tail.split_at(1);
        proof {
            let x = piece@ + seq![' '] + after@;
            lemma_encode_concat(piece@ + seq![' '], after@);
            lemma_encode_concat(piece@, seq![' ']);
            lemma_encode_space();
            assert(encode_utf8(x) =~= encode_utf8(rest@));
            encode_utf8_decode_utf8(x);
            encode_utf8_decode_utf8(rest@);
            assert(rest@ == x);
            assert(!piece@.contains(' ')) by {
                if piece@.contains(' ') {
                    let k = choose|k: int| 0 <= k < piece@.len() && piece@[k] == ' ';
                    lemma_space_byte(piece@, k);
                }
            }
            lemma_split_first(piece@, after@);
        }
        let ghost before = tokens@.map_values(|t: String| t@);
        let owned = piece.to_owned();
        tokens.push(owned);
        assert(tokens@.map_values(|t: String| t@) =~= before.push(piece@));
        assert(before.push(piece@) + split_on_space(after@) =~= before + (seq![piece@]
            + split_on_space(after@)));
        rest = after;
    }
}

} // verus!
