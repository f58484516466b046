use vstd::prelude::*;
use vstd::string::StringExecFns;

verus! {

/// Guards a background producer so that at most one runs per data source.
/// Its holder keeps it under a lock, so that a check and a set are one step.
pub struct ProducerGuard {
    running: bool,
}

impl ProducerGuard {
    /// Whether a producer is running.
    pub closed spec fn running(&self) -> bool {
        self.running
    }

    /// A guard with no producer running.
    pub fn new() -> (r: ProducerGuard)
        ensures
            !r.running(),
    {
        ProducerGuard { running: false }
    }

    /// Claims the right to start a producer: true exactly when none was
    /// running; afterwards one is running either way.
    pub fn try_start(&mut self) -> (r: bool)
        ensures
            r == !old(self).running(),
            final(self).running(),
    {
        if self.running {
            false
        } else {
            self.running = true;
            true
        }
    }

    /// Records that the producer has stopped, so that it can be started anew.
    pub fn stop(&mut self)
        ensures
            !final(self).running(),
    {
        self.running = false;
    }

    /// Whether a producer is running.
    pub fn is_running(&self) -> (r: bool)
        ensures
            r == self.running(),
    {
        self.running
    }
}

/// One reading as it is shown: the number followed by a percent sign.
pub open spec fn report_line(reading: Seq<char>) -> Seq<char> {
    reading + seq!['%']
}

/// The readings as they are shown, one line each, separated by newlines,
/// with no newline after the last.
pub open spec fn report_text(readings: Seq<Seq<char>>) -> Seq<char>
    decreases readings.len(),
{
    if readings.len() == 0 {
        Seq::empty()
    } else if readings.len() == 1 {
        report_line(readings[0])
    } else {
        report_text(readings.drop_last()) + seq!['\n'] + report_line(readings.last())
    }
}

/// The message that a usage producer publishes: each reading (a number
/// already written out as text) followed by `%`, one per line.
pub fn cpu_report(readings: &Vec<String>) -> (r: String)
    ensures
        r@ == report_text(readings@.map_values(|s: String| s@)),
{
    let ghost texts = readings@.map_values(|s: String| s@);
    let mut out = String::new();
    let mut i: usize = 0;
    while i < readings.len()
        invariant
            i <= readings@.len(),
            texts == readings@.map_values(|s: String| s@),
            out@ == report_text(texts.subrange(0, i as int)),
        decreases readings@.len() - i,
    {
        proof {
            reveal_strlit("\n");
            reveal_strlit("%");
        }
        let ghost before = out@;
        if i > 0 {
            out.append("\n");
        }
        out.append(readings[i].as_str());
        out.append("%");
        proof {
            let next = texts.subrange(0, i + 1);
            assert(next.drop_last() =~= texts.subrange(0, i as int));
            assert(next.last() == readings@[i as int]@);
            if i == 0 {
                assert(out@ =~= report_line(next[0]));
            } else {
                assert(out@ =~= before + seq!['\n'] + report_line(next.last()));
            }
        }
        i = i + 1;
    }
    proof {
        assert(texts.subrange(0, readings@.len() as int) =~= texts);
    }
    out
}

} // verus!
