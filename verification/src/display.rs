//! How selections and errors read as text.
use vstd::prelude::*;
use vstd::string::StringExecFns;
use crate::coin_selector::{Candidate, CoinSelector, InsufficientFunds, NoBnbSolution, SelectorView};

verus! {

broadcast use vstd::std_specs::btree::group_btree_axioms;

/// The character of the decimal digit `digit`.
pub open spec fn spec_digit(digit: int) -> char {
    if digit == 0 {
        '0'
    } else if digit == 1 {
        '1'
    } else if digit == 2 {
        '2'
    } else if digit == 3 {
        '3'
    } else if digit == 4 {
        '4'
    } else if digit == 5 {
        '5'
    } else if digit == 6 {
        '6'
    } else if digit == 7 {
        '7'
    } else if digit == 8 {
        '8'
    } else {
        '9'
    }
}

/// The decimal digits of `number`, without leading zeros.
pub open spec fn spec_decimal(number: nat) -> Seq<char>
    decreases number,
{
    if number < 10 {
        seq![spec_digit(number as int)]
    } else {
        spec_decimal(number / 10).push(spec_digit((number % 10) as int))
    }
}

/// Writes the decimal digits of `number` at the end of `text`.
pub fn push_decimal(text: &mut String, number: u64)
    ensures
        final(text)@ == old(text)@ + spec_decimal(number as nat),
    decreases number,
{
    if number >= 10 {
        push_decimal(text, number / 10);
    }
    let digit: u64 = number % 10;
    proof {
        reveal_strlit("0");
        reveal_strlit("1");
        reveal_strlit("2");
        reveal_strlit("3");
        reveal_strlit("4");
        reveal_strlit("5");
        reveal_strlit("6");
        reveal_strlit("7");
        reveal_strlit("8");
        reveal_strlit("9");
    }
    let ghost before = text@;
    if digit == 0 {
        text.append("0");
    } else if digit == 1 {
        text.append("1");
    } else if digit == 2 {
        text.append("2");
    } else if digit == 3 {
        text.append("3");
    } else if digit == 4 {
        text.append("4");
    } else if digit == 5 {
        text.append("5");
    } else if digit == 6 {
        text.append("6");
    } else if digit == 7 {
        text.append("7");
    } else if digit == 8 {
        text.append("8");
    } else {
        text.append("9");
    }
    proof {
        assert(text@ =~= before.push(spec_digit(digit as int)));
        if number >= 10 {
            assert(text@ =~= old(text)@ + spec_decimal(number as nat));
        } else {
            assert(text@ =~= old(text)@ + spec_decimal(number as nat));
        }
    }
}

impl InsufficientFunds {
    /// What the error says.
    pub open spec fn spec_message(&self) -> Seq<char> {
        "Insufficient funds. Missing "@ + spec_decimal(self.missing as nat) + " sats."@
    }

    /// What the error says: how many satoshis are missing.
    pub fn to_string(&self) -> (message: String)
        ensures
            message@ == self.spec_message(),
    {
        let mut message: String = String::from_str("Insufficient funds. Missing ");
        push_decimal(&mut message, self.missing);
        message.append(" sats.");
        message
    }
}

impl NoBnbSolution {
    /// What the error says.
    pub open spec fn spec_message(&self) -> Seq<char> {
        "No bnb solution found after "@ + spec_decimal(self.rounds as nat)
            + " rounds (max rounds is "@ + spec_decimal(self.max_rounds as nat) + ")."@
    }

    /// What the error says: how many rounds were run and how many were allowed.
    pub fn to_string(&self) -> (message: String)
        ensures
            message@ == self.spec_message(),
    {
        let mut message: String = String::from_str("No bnb solution found after ");
        push_decimal(&mut message, self.rounds as u64);
        message.append(" rounds (max rounds is ");
        push_decimal(&mut message, self.max_rounds as u64);
        message.append(").");
        message
    }
}

/// The mark of the candidate with the index `index`: a check mark where it is selected, a
/// cross where it is banned and not selected, an empty box else.
pub open spec fn spec_mark(selection: SelectorView, index: usize) -> Seq<char> {
    if selection.selected.contains(index) {
        "✔"@
    } else if selection.banned.contains(index) {
        "✘"@
    } else {
        "☐"@
    }
}

/// The first `k` candidates in their order, each as its index and its mark, with `", "`
/// between them.
pub open spec fn spec_listed(selection: SelectorView, k: int) -> Seq<char>
    decreases k,
{
    if k <= 0 {
        Seq::empty()
    } else {
        spec_listed(selection, k - 1) + if k > 1 {
            ", "@
        } else {
            Seq::empty()
        } + spec_decimal(selection.order[k - 1] as nat) + spec_mark(selection, selection.order[k - 1])
    }
}

impl<'a> CoinSelector<'a> {
    /// The selection as text: the candidates in their order between square brackets.
    pub open spec fn spec_to_string(&self) -> Seq<char> {
        "["@ + spec_listed(self@, self@.order.len() as int) + "]"@
    }

    /// The selection as text: between square brackets the candidates in their order, each as
    /// its index and a check mark where it is selected, a cross where it is banned and an empty
    /// box else, with `", "` between them.
    pub fn to_string(&self) -> (text: String)
        requires
            self.wf(),
        ensures
            text@ == self.spec_to_string(),
    {
        let mut text: String = String::from_str("[");
        let candidates: Vec<(usize, Candidate)> = self.candidates();
        let n: usize = candidates.len();
        let mut k: usize = 0;
        while k < n
            invariant
                k <= n,
                n == self@.order.len(),
                candidates@ == self@.with_candidates(self@.order),
                text@ == "["@ + spec_listed(self@, k as int),
            decreases n - k,
        {
            let (index, _candidate): (usize, Candidate) = candidates[k];
            assert(index == self@.order[k as int]);
            let ghost before = text@;
            if k > 0 {
                text.append(", ");
            }
            push_decimal(&mut text, index as u64);
            if self.is_selected(index) {
                text.append("✔");
            } else if self.banned().contains(&index) {
                text.append("✘");
            } else {
                text.append("☐");
            }
            proof {
                assert(text@ =~= "["@ + spec_listed(self@, k + 1));
            }
            k += 1;
        }
        text.append("]");
        text
    }
}

} // verus!
