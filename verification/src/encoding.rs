//! The text of a term with legal names is UTF-8.

use vstd::prelude::*;
use vstd::utf8::{
    partial_valid_utf8, partial_valid_utf8_extend_ascii_block, pop_first_scalar,
    valid_first_scalar, valid_utf8, valid_utf8_concat,
};
use crate::roundtrip::{legal, legal_name};
use crate::syntax::{digits_of, print, Ast};

verus! {

/// Bytes below 128 are UTF-8.
pub proof fn lemma_ascii_is_utf8(s: Seq<u8>)
    requires
        forall|i: int| 0 <= i < s.len() ==> #[trigger] s[i] < 128,
    ensures
        valid_utf8(s),
{
    assert(s.subrange(0, 0) =~= Seq::<u8>::empty());
    assert(valid_utf8(Seq::<u8>::empty()));
    assert(partial_valid_utf8(s, 0));
    partial_valid_utf8_extend_ascii_block(s, 0, s.len() as int);
    assert(s.subrange(0, s.len() as int) =~= s);
}

/// The two bytes of `λ` are UTF-8.
pub proof fn lemma_lambda_is_utf8()
    ensures
        valid_utf8(seq![206u8, 187u8]),
{
    let s = seq![206u8, 187u8];
    assert((((206u8 & 0x1F) as u32) << 6) | ((187u8 & 0x3f) as u32) == 0x3bbu32) by (bit_vector);
    assert(valid_first_scalar(s));
    assert(pop_first_scalar(s) =~= Seq::<u8>::empty());
    assert(valid_utf8(pop_first_scalar(s)));
}

/// A legal name is UTF-8.
pub proof fn lemma_name_is_utf8(x: Seq<u8>)
    requires
        legal_name(x),
    ensures
        valid_utf8(x),
{
    assert forall|i: int| 0 <= i < x.len() implies #[trigger] x[i] < 128 by {
        if i > 0 {
            assert(crate::lex::is_name_tail(x[i]));
        }
    }
    lemma_ascii_is_utf8(x);
}

/// The digits of a number are UTF-8.
pub proof fn lemma_digits_are_utf8(n: nat)
    ensures
        valid_utf8(digits_of(n)),
{
    crate::roundtrip::lemma_digits_of(n);
    let d = digits_of(n);
    assert forall|i: int| 0 <= i < d.len() implies #[trigger] d[i] < 128 by {
        assert(crate::lex::is_digit(d[i]));
    }
    lemma_ascii_is_utf8(d);
}

/// The text of a term with legal names is UTF-8.
pub proof fn lemma_print_is_utf8(t: Ast)
    requires
        legal(t),
    ensures
        valid_utf8(print(t)),
    decreases t,
{
    match t {
        Ast::Var(x) => {
            lemma_name_is_utf8(x);
        },
        Ast::Lam(x, e) => {
            lemma_name_is_utf8(x);
            lemma_print_is_utf8(*e);
            lemma_lambda_is_utf8();
            lemma_ascii_is_utf8(seq![40u8]);
            lemma_ascii_is_utf8(seq![32u8]);
            lemma_ascii_is_utf8(seq![41u8]);
            assert(seq![40u8, 206u8, 187u8] =~= seq![40u8] + seq![206u8, 187u8]);
            valid_utf8_concat(seq![40u8], seq![206u8, 187u8]);
            let a = seq![40u8, 206u8, 187u8];
            valid_utf8_concat(a, x);
            valid_utf8_concat(a + x, seq![32u8]);
            valid_utf8_concat(a + x + seq![32u8], print(*e));
            valid_utf8_concat(a + x + seq![32u8] + print(*e), seq![41u8]);
        },
        Ast::App(f, a) => {
            lemma_print_is_utf8(*f);
            lemma_print_is_utf8(*a);
            lemma_ascii_is_utf8(seq![40u8]);
            lemma_ascii_is_utf8(seq![32u8]);
            lemma_ascii_is_utf8(seq![41u8]);
            valid_utf8_concat(seq![40u8], print(*f));
            valid_utf8_concat(seq![40u8] + print(*f), seq![32u8]);
            valid_utf8_concat(seq![40u8] + print(*f) + seq![32u8], print(*a));
            valid_utf8_concat(seq![40u8] + print(*f) + seq![32u8] + print(*a), seq![41u8]);
        },
        Ast::Sup(l, a, b) => {
            lemma_print_is_utf8(*a);
            lemma_print_is_utf8(*b);
            lemma_digits_are_utf8(l as nat);
            let d = digits_of(l as nat);
            lemma_ascii_is_utf8(seq![35u8]);
            lemma_ascii_is_utf8(seq![123u8]);
            lemma_ascii_is_utf8(seq![32u8]);
            lemma_ascii_is_utf8(seq![125u8]);
            valid_utf8_concat(seq![35u8], d);
            valid_utf8_concat(seq![35u8] + d, seq![123u8]);
            valid_utf8_concat(seq![35u8] + d + seq![123u8], print(*a));
            valid_utf8_concat(seq![35u8] + d + seq![123u8] + print(*a), seq![32u8]);
            valid_utf8_concat(seq![35u8] + d + seq![123u8] + print(*a) + seq![32u8], print(*b));
            valid_utf8_concat(
                seq![35u8] + d + seq![123u8] + print(*a) + seq![32u8] + print(*b),
                seq![125u8],
            );
        },
        Ast::Dup(l, x, y, e, k) => {
            lemma_name_is_utf8(x);
            lemma_name_is_utf8(y);
            lemma_print_is_utf8(*e);
            lemma_print_is_utf8(*k);
            lemma_digits_are_utf8(l as nat);
            let d = digits_of(l as nat);
            let head = seq![40u8, 100u8, 117u8, 112u8, 32u8, 35u8];
            let close = seq![125u8, 32u8, 61u8, 32u8];
            let semi = seq![59u8, 32u8];
            lemma_ascii_is_utf8(head);
            lemma_ascii_is_utf8(close);
            lemma_ascii_is_utf8(semi);
            lemma_ascii_is_utf8(seq![123u8]);
            lemma_ascii_is_utf8(seq![32u8]);
            lemma_ascii_is_utf8(seq![41u8]);
            valid_utf8_concat(head, d);
            valid_utf8_concat(head + d, seq![123u8]);
            valid_utf8_concat(head + d + seq![123u8], x);
            valid_utf8_concat(head + d + seq![123u8] + x, seq![32u8]);
            valid_utf8_concat(head + d + seq![123u8] + x + seq![32u8], y);
            let front = head + d + seq![123u8] + x + seq![32u8] + y;
            valid_utf8_concat(front, close);
            valid_utf8_concat(front + close, print(*e));
            valid_utf8_concat(front + close + print(*e), semi);
            valid_utf8_concat(front + close + print(*e) + semi, print(*k));
            valid_utf8_concat(front + close + print(*e) + semi + print(*k), seq![41u8]);
        },
        Ast::Let(x, e, k) => {
            lemma_name_is_utf8(x);
            lemma_print_is_utf8(*e);
            lemma_print_is_utf8(*k);
            let head = seq![40u8, 108u8, 101u8, 116u8, 32u8];
            let eq = seq![32u8, 61u8, 32u8];
            let semi = seq![59u8, 32u8];
            lemma_ascii_is_utf8(head);
            lemma_ascii_is_utf8(eq);
            lemma_ascii_is_utf8(semi);
            lemma_ascii_is_utf8(seq![41u8]);
            valid_utf8_concat(head, x);
            valid_utf8_concat(head + x, eq);
            valid_utf8_concat(head + x + eq, print(*e));
            valid_utf8_concat(head + x + eq + print(*e), semi);
            valid_utf8_concat(head + x + eq + print(*e) + semi, print(*k));
            valid_utf8_concat(head + x + eq + print(*e) + semi + print(*k), seq![41u8]);
        },
    }
}

} // verus!
