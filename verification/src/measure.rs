use vstd::prelude::*;

verus! {

#[verifier::external_type_specification]
#[verifier::external_body]
pub struct ExInstant(std::time::Instant);

/// Relies on std::time::Instant::now for the clock reading; nothing is
/// promised of the moment it captures.
#[verifier::external_body]
fn instant_now() -> std::time::Instant {
    std::time::Instant::now()
}

/// Relies on Instant::elapsed: the span since the instant; it depends on
/// when it runs, so nothing is promised of it.
#[verifier::external_body]
fn instant_elapsed(start: &std::time::Instant) -> std::time::Duration {
    start.elapsed()
}

/// Relies on Duration::as_secs: the whole seconds of the span.
#[verifier::external_body]
fn duration_secs(d: &std::time::Duration) -> u64 {
    d.as_secs()
}

/// Relies on Duration::subsec_nanos: the fractional part of the span,
/// documented to lie below one billion.
#[verifier::external_body]
fn duration_subsec_nanos(d: &std::time::Duration) -> (r: u32)
    ensures
        r < 1000000000,
{
    d.subsec_nanos()
}

/// The wall-clock nanoseconds since the instant, saturating at 64 bits.
fn elapsed_ns(start: &std::time::Instant) -> u64 {
    let d = instant_elapsed(start);
    let secs = duration_secs(&d);
    let nanos = duration_subsec_nanos(&d);
    match secs.checked_mul(1000000000) {
        Some(x) => match x.checked_add(nanos as u64) {
            Some(y) => y,
            None => u64::MAX,
        },
        None => u64::MAX,
    }
}

/// Relies on String::push: appends exactly the one character.
#[verifier::external_body]
fn push_char(s: &mut String, c: char)
    ensures
        final(s)@ == old(s)@.push(c),
{
    s.push(c);
}

/// The decimal digit character for a value below ten.
pub open spec fn digit_char(d: nat) -> char {
    ((d + 48) as u8) as char
}

/// The decimal text of a number, most significant digit first.
pub open spec fn dec_chars(n: nat) -> Seq<char>
    decreases n,
{
    if n < 10 {
        seq![digit_char(n)]
    } else {
        dec_chars(n / 10).push(digit_char(n % 10))
    }
}

/// Render a number as decimal text.
pub fn u64_to_text(n: u64) -> (r: String)
    ensures
        r@ == dec_chars(n as nat),
    decreases n,
{
    if n < 10 {
        let mut s = String::new();
        push_char(&mut s, (((n as u8) + 48)) as char);
        proof {
            assert(s@ =~= dec_chars(n as nat));
        }
        s
    } else {
        let mut s = u64_to_text(n / 10);
        push_char(&mut s, ((((n % 10) as u8) + 48)) as char);
        s
    }
}

/// A wall-clock stopwatch: a label, the instant it started, and the last
/// measured span in nanoseconds.
pub struct Measure {
    pub name: &'static str,
    pub start: std::time::Instant,
    pub duration: u64,
}

/// The one-line report of a stopwatch: `running` before it stops, then the
/// span in the widest unit that keeps it above one, seconds with one
/// (truncated) decimal place.
pub open spec fn measure_text(name: Seq<char>, d: u64) -> Seq<char> {
    if d == 0 {
        name + " running"@
    } else if d < 1000 {
        name + " took "@ + dec_chars(d as nat) + "ns"@
    } else if d < 1000000 {
        name + " took "@ + dec_chars((d / 1000) as nat) + "us"@
    } else if d < 1000000000 {
        name + " took "@ + dec_chars((d / 1000000) as nat) + "ms"@
    } else {
        name + " took "@ + dec_chars((d / 1000000000) as nat) + "."@ + dec_chars(
            ((d % 1000000000) / 100000000) as nat,
        ) + "s"@
    }
}

impl Measure {
    /// Start a stopwatch under the given label.
    pub fn start(name: &'static str) -> (r: Self)
        ensures
            r.name@ == name@,
            r.duration == 0,
    {
        Self { name, start: instant_now(), duration: 0 }
    }

    /// Stop the stopwatch: record the span since it started. The span is a
    /// clock reading, so nothing is promised of its value.
    pub fn stop(&mut self)
        ensures
            final(self).name == old(self).name,
            final(self).start == old(self).start,
    {
        self.duration = elapsed_ns(&self.start);
    }

    /// The measured span in nanoseconds.
    pub fn as_ns(&self) -> (r: u64)
        ensures
            r == self.duration,
    {
        self.duration
    }

    /// The measured span in microseconds.
    pub fn as_us(&self) -> (r: u64)
        ensures
            r == self.duration / 1000,
    {
        self.duration / 1000
    }

    /// The measured span in milliseconds.
    pub fn as_ms(&self) -> (r: u64)
        ensures
            r == self.duration / 1000000,
    {
        self.duration / (1000 * 1000)
    }

    /// Measure one call of a function: start a stopwatch, call it, stop,
    /// and hand back its result with the measurement.
    pub fn this<T, R, F: FnOnce(T) -> R>(func: F, args: T, name: &'static str) -> (r: (R, Self))
        requires
            func.requires((args,)),
        ensures
            func.ensures((args,), r.0),
            r.1.name@ == name@,
    {
        let mut measure = Self::start(name);
        let result = func(args);
        measure.stop();
        (result, measure)
    }

    /// The stopwatch's one-line report.
    pub fn to_text(&self) -> (r: String)
        ensures
            r@ == measure_text(self.name@, self.duration),
    {
        let mut out = String::new();
        out.append(self.name);
        if self.duration == 0 {
            out.append(" running");
            return out;
        }
        out.append(" took ");
        if self.duration < 1000 {
            let digits = u64_to_text(self.duration);
            out.append(digits.as_str());
            out.append("ns");
        } else if self.duration < 1000000 {
            let digits = u64_to_text(self.duration / 1000);
            out.append(digits.as_str());
            out.append("us");
        } else if self.duration < 1000000000 {
            let digits = u64_to_text(self.duration / 1000000);
            out.append(digits.as_str());
            out.append("ms");
        } else {
            let digits = u64_to_text(self.duration / 1000000000);
            out.append(digits.as_str());
            out.append(".");
            let tenth = u64_to_text((self.duration % 1000000000) / 100000000);
            out.append(tenth.as_str());
            out.append("s");
        }
        out
    }
}

} // verus!
