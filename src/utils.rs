use vstd::prelude::*;
use vstd::utf8::encode_utf8;

verus! {

broadcast use vstd::utf8::encode_utf8_decode_utf8;

/// Compares two strings character by character.
pub fn str_eq(a: &str, b: &str) -> (r: bool)
    ensures
        r == (a@ == b@),
{
    let x = a.as_bytes();
    let y = b.as_bytes();
    if x.len() != y.len() {
        return false;
    }
    let mut i: usize = 0;
    while i < x.len()
        invariant
            x@ == encode_utf8(a@),
            y@ == encode_utf8(b@),
            x@.len() == y@.len(),
            0 <= i <= x@.len(),
            x@.take(i as int) == y@.take(i as int),
        decreases x@.len() - i,
    {
        if x[i] != y[i] {
            assert(x@[i as int] != y@[i as int]);
            return false;
        }
        i = i + 1;
        assert(x@.take(i as int) =~= y@.take(i as int));
    }
    assert(x@ =~= y@.take(i as int));
    assert(x@ =~= y@);
    proof {
        vstd::utf8::encode_utf8_decode_utf8(a@);
        vstd::utf8::encode_utf8_decode_utf8(b@);
    }
    true
}

/// `s` with every single quote doubled.
pub open spec fn escaped(s: Seq<char>) -> Seq<char>
    decreases s.len(),
{
    if s.len() == 0 {
        Seq::empty()
    } else {
        escaped(s.drop_last()) + if s.last() == '\'' {
            seq!['\'', '\'']
        } else {
            seq![s.last()]
        }
    }
}

/// `s` with every single quote doubled, as a string literal of a statement
/// writes it.
pub fn escape(s: &str) -> (r: String)
    ensures
        r@ == escaped(s@),
{
    let n = s.unicode_len();
    let mut r = String::new();
    let mut i: usize = 0;
    while i < n
        invariant
            n == s@.len(),
            0 <= i <= n,
            r@ == escaped(s@.take(i as int)),
        decreases n - i,
    {
        let c = s.get_char(i);
        proof {
            assert(s@.take(i + 1).drop_last() =~= s@.take(i as int));
            assert(s@.take(i + 1).last() == c);
        }
        if c == '\'' {
            let q = "''";
            proof {
                reveal_strlit("''");
                assert(q@.len() == 2);
                assert(q@[0] == '\'' && q@[1] == '\'');
                assert(q@ =~= seq!['\'', '\'']);
            }
            r.append(q);
        } else {
            let one = s.substring_char(i, i + 1);
            assert(one@ =~= seq![c]);
            r.append(one);
        }
        i = i + 1;
    }
    assert(s@.take(i as int) =~= s@);
    r
}

} // verus!
