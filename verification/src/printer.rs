//! The text form of a solution: the objective and the optimality flag on one
//! line, the decisions on the next, all in decimal and separated by spaces.

use crate::file_reader::{all_digits, digits_value, number, NEWLINE, PLUS, SPACE, ZERO};
use crate::knapsack::KnapsackSolution;
use vstd::prelude::*;

verus! {

/// The decimal digits of `n`, without leading zeros.
pub open spec fn decimal(n: nat) -> Seq<u8>
    decreases n,
{
    if n < 10 {
        seq![(ZERO + n) as u8]
    } else {
        decimal(n / 10).push((ZERO + n % 10) as u8)
    }
}

/// The decisions in decimal, with a space between each two.
pub open spec fn joined(decisions: Seq<u8>) -> Seq<u8>
    decreases decisions.len(),
{
    if decisions.len() == 0 {
        Seq::empty()
    } else if decisions.len() == 1 {
        decimal(decisions[0] as nat)
    } else {
        joined(decisions.drop_last()) + seq![SPACE] + decimal(decisions.last() as nat)
    }
}

/// The text of a solution with objective `obj`, optimality flag `opt` and
/// the decisions `decisions`.
pub open spec fn solution_text(obj: usize, opt: bool, decisions: Seq<u8>) -> Seq<u8> {
    decimal(obj as nat) + seq![SPACE] + decimal(
        if opt {
            1
        } else {
            0
        },
    ) + seq![NEWLINE] + joined(decisions)
}

/// What is written in decimal is read back as the same number.
pub proof fn lemma_decimal_reads_back(n: nat)
    ensures
        decimal(n).len() > 0,
        all_digits(decimal(n)),
        digits_value(decimal(n)) == n,
        n <= usize::MAX ==> number(decimal(n)) == Some(n as usize),
    decreases n,
{
    if n >= 10 {
        lemma_decimal_reads_back(n / 10);
        assert(decimal(n).drop_last() == decimal(n / 10));
        assert(decimal(n)[0] == decimal(n / 10)[0]);
    } else {
        assert(decimal(n).drop_last() == Seq::<u8>::empty());
        assert(digits_value(decimal(n).drop_last()) == 0);
    }
    assert(decimal(n)[0] != PLUS);
}

/// Appends the decimal digits of `n` to `out`.
pub fn write_decimal(out: &mut Vec<u8>, n: usize)
    ensures
        final(out)@ == old(out)@ + decimal(n as nat),
    decreases n,
{
    if n >= 10 {
        write_decimal(out, n / 10);
    }
    out.push(ZERO + (n % 10) as u8);
    assert(out@ =~= old(out)@ + decimal(n as nat));
}

impl KnapsackSolution {
    /// The solution as text.
    pub fn to_text(&self) -> (text: Vec<u8>)
        ensures
            text@ == solution_text(self.obj, self.opt, self.selected_items@),
    {
        let mut text: Vec<u8> = Vec::new();
        write_decimal(&mut text, self.obj);
        text.push(SPACE);
        write_decimal(&mut text, if self.opt {
            1
        } else {
            0
        });
        text.push(NEWLINE);
        let ghost head = text@;
        let mut i: usize = 0;
        while i < self.selected_items.len()
            invariant
                i <= self.selected_items.len(),
                text@ == head + joined(self.selected_items@.take(i as int)),
            decreases self.selected_items.len() - i,
        {
            if i > 0 {
                text.push(SPACE);
            }
            write_decimal(&mut text, self.selected_items[i] as usize);
            proof {
                let now = self.selected_items@.take(i + 1);
                assert(now.drop_last() == self.selected_items@.take(i as int));
                assert(text@ =~= head + joined(now));
            }
            i += 1;
        }
        assert(self.selected_items@.take(i as int) == self.selected_items@);
        text
    }
}

} // verus!
