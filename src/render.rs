use vstd::prelude::*;
use vstd::string::StringExecFns;

use crate::graph::{deref_edges, edge_seq, Graph, Unweighted, Weighted};

verus! {

/// The character of a decimal digit.
pub open spec fn digit_char(d: nat) -> char {
    if d == 0 {
        '0'
    } else if d == 1 {
        '1'
    } else if d == 2 {
        '2'
    } else if d == 3 {
        '3'
    } else if d == 4 {
        '4'
    } else if d == 5 {
        '5'
    } else if d == 6 {
        '6'
    } else if d == 7 {
        '7'
    } else if d == 8 {
        '8'
    } else {
        '9'
    }
}

/// `n` written in decimal, without leading zeros.
pub open spec fn decimal(n: nat) -> Seq<char>
    decreases n,
{
    if n < 10 {
        seq![digit_char(n)]
    } else {
        decimal(n / 10) + seq![digit_char(n % 10)]
    }
}

/// Relies on `ToString::to_string` for `u32`, which writes the number in
/// decimal through its `Display` impl.
#[verifier::external_body]
fn decimal_string(n: u32) -> (r: String)
    ensures
        r@ == decimal(n as nat),
{
    n.to_string()
}

/// The line of an unweighted edge: `{source}->{target}`.
pub open spec fn unweighted_line(e: (u32, u32, Unweighted)) -> Seq<char> {
    decimal(e.0 as nat) + seq!['-', '>'] + decimal(e.1 as nat) + seq!['\n']
}

/// The line of a weighted edge: `{source}-({weight})->{target}`.
pub open spec fn weighted_line(e: (u32, u32, Weighted)) -> Seq<char> {
    decimal(e.0 as nat) + seq!['-', '('] + decimal(e.2.0 as nat) + seq![')', '-', '>'] + decimal(
        e.1 as nat,
    ) + seq!['\n']
}

/// One line per edge, in order.
pub open spec fn unweighted_text(es: Seq<(u32, u32, Unweighted)>) -> Seq<char>
    decreases es.len(),
{
    if es.len() == 0 {
        Seq::empty()
    } else {
        unweighted_text(es.drop_last()) + unweighted_line(es.last())
    }
}

/// One line per edge, in order.
pub open spec fn weighted_text(es: Seq<(u32, u32, Weighted)>) -> Seq<char>
    decreases es.len(),
{
    if es.len() == 0 {
        Seq::empty()
    } else {
        weighted_text(es.drop_last()) + weighted_line(es.last())
    }
}

impl Graph<Unweighted> {
    /// The graph as text: a line `{source}->{target}` for each edge, in
    /// the order of `edges`.
    pub fn to_text(&self) -> (r: String)
        ensures
            r@ == unweighted_text(edge_seq(self@)),
    {
        let es = self.edges();
        let ghost e = deref_edges(es@);
        let mut r: String = String::new();
        let mut i: usize = 0;
        while i < es.len()
            invariant
                e == deref_edges(es@),
                e == edge_seq(self@),
                i <= es@.len(),
                r@ == unweighted_text(e.take(i as int)),
            decreases es@.len() - i,
        {
            let (x, y, _) = es[i];
            proof {
                reveal_strlit("->");
                reveal_strlit("\n");
                assert(e.take(i + 1).drop_last() =~= e.take(i as int));
            }
            r.append(decimal_string(x).as_str());
            r.append("->");
            r.append(decimal_string(y).as_str());
            r.append("\n");
            i = i + 1;
        }
        assert(e.take(i as int) =~= e);
        r
    }
}

impl Graph<Weighted> {
    /// The graph as text: a line `{source}-({weight})->{target}` for each
    /// edge, in the order of `edges`.
    pub fn to_text(&self) -> (r: String)
        ensures
            r@ == weighted_text(edge_seq(self@)),
    {
        let es = self.edges();
        let ghost e = deref_edges(es@);
        let mut r: String = String::new();
        let mut i: usize = 0;
        while i < es.len()
            invariant
                e == deref_edges(es@),
                e == edge_seq(self@),
                i <= es@.len(),
                r@ == weighted_text(e.take(i as int)),
            decreases es@.len() - i,
        {
            let (x, y, w) = es[i];
            proof {
                reveal_strlit("-(");
                reveal_strlit(")->");
                reveal_strlit("\n");
                assert(e.take(i + 1).drop_last() =~= e.take(i as int));
            }
            r.append(decimal_string(x).as_str());
            r.append("-(");
            r.append(decimal_string(w.0).as_str());
            r.append(")->");
            r.append(decimal_string(y).as_str());
            r.append("\n");
            i = i + 1;
        }
        assert(e.take(i as int) =~= e);
        r
    }
}

} // verus!
