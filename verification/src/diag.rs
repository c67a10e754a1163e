//! The diagnostic channel for encoding failures.
//!
//! The sink is an injectable, write-only record of diagnostic lines: the
//! caller owns it and decides where its contents go, so a test can capture
//! the records and a server can drain them to its log.  Contracts count the
//! records, which is how the "exactly one diagnostic per encoding failure"
//! guarantee is stated.

use vstd::prelude::*;

verus! {

/// A write-only record of diagnostic lines, owned by the caller.
pub struct DiagnosticSink {
    records: Vec<String>,
}

impl View for DiagnosticSink {
    type V = Seq<Seq<char>>;

    closed spec fn view(&self) -> Seq<Seq<char>> {
        self.records@.map_values(|r: String| r@)
    }
}

impl DiagnosticSink {
    /// A sink with no records.
    pub fn new() -> (r: DiagnosticSink)
        ensures
            r@ == Seq::<Seq<char>>::empty(),
    {
        let r = DiagnosticSink { records: Vec::new() };
        proof {
            assert(r@ =~= Seq::<Seq<char>>::empty());
        }
        r
    }

    /// Appends one record; nothing is ever removed or rewritten.
    pub fn record(&mut self, line: String)
        ensures
            final(self)@ == old(self)@.push(line@),
    {
        let ghost l = line@;
        self.records.push(line);
        proof {
            assert(final(self)@ =~= old(self)@.push(l));
        }
    }

    /// How many records have been written.
    pub fn len(&self) -> (r: usize)
        ensures
            r == self@.len(),
    {
        self.records.len()
    }

    /// The record at one index.
    pub fn get(&self, i: usize) -> (r: &String)
        requires
            i < self@.len(),
        ensures
            r@ == self@[i as int],
    {
        &self.records[i]
    }
}

} // verus!
