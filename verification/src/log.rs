use vstd::prelude::*;

verus! {

/// One completed move: where the file was, where it went, and when.
/// Immutable once created.
pub struct Operation {
    pub from: String,
    pub to: String,
    pub timestamp: String,
}

/// Mathematical model of an `Operation`.
#[verifier::ext_equal]
pub struct OperationView {
    pub from: Seq<char>,
    pub to: Seq<char>,
    pub timestamp: Seq<char>,
}

impl View for Operation {
    type V = OperationView;

    open spec fn view(&self) -> OperationView {
        OperationView { from: self.from@, to: self.to@, timestamp: self.timestamp@ }
    }
}

/// The append-only record of the moves performed in one directory,
/// in chronological order.
pub struct OperationLog {
    pub operations: Vec<Operation>,
}

impl View for OperationLog {
    type V = Seq<OperationView>;

    open spec fn view(&self) -> Seq<OperationView> {
        self.operations@.map_values(|o: Operation| o@)
    }
}

/// The shape every capture-time string has: long enough for a full
/// RFC 3339 date-time, with the `T` separator and a `:` in the time.
pub open spec fn rfc3339_shaped(s: Seq<char>) -> bool {
    s.len() >= 20 && s.contains('T') && s.contains(':')
}

/// Relies on chrono: `DateTime::from_timestamp` turns seconds since the
/// Unix epoch into a UTC date-time without panicking (`None` out of
/// range), and `DateTime::to_rfc3339` formats it as an RFC 3339 string.
/// The clock is read through `std::time::SystemTime`; a clock before the
/// epoch or out of chrono's range yields the epoch string instead, so no
/// outcome panics and every outcome is RFC 3339 shaped. The value depends
/// on the clock, so nothing more is promised of it.
#[verifier::external_body]
fn now_rfc3339() -> (r: String)
    ensures
        rfc3339_shaped(r@),
{
    let secs = match std::time::SystemTime::now().duration_since(std::time::UNIX_EPOCH) {
        Ok(d) => d.as_secs() as i64,
        Err(_) => 0,
    };
    match chrono::DateTime::from_timestamp(secs, 0) {
        Some(t) => t.to_rfc3339(),
        None => "1970-01-01T00:00:00+00:00".to_string(),
    }
}

impl OperationLog {
    /// A fresh, empty log.
    pub fn new() -> (log: Self)
        ensures
            log@ == Seq::<OperationView>::empty(),
    {
        let log = Self { operations: Vec::new() };
        proof {
            assert(log@ =~= Seq::<OperationView>::empty());
        }
        log
    }

    /// Appends one move, stamped with the current time, to the in-memory
    /// log. Everything already recorded is kept, in order; nothing is
    /// written to disk.
    pub fn add_operation(&mut self, from: String, to: String)
        ensures
            final(self)@.len() == old(self)@.len() + 1,
            final(self)@.subrange(0, old(self)@.len() as int) == old(self)@,
            final(self)@.last().from == from@,
            final(self)@.last().to == to@,
            rfc3339_shaped(final(self)@.last().timestamp),
    {
        let timestamp = now_rfc3339();
        self.operations.push(Operation { from, to, timestamp });
        proof {
            assert(final(self)@.subrange(0, old(self)@.len() as int) =~= old(self)@);
        }
    }
}

/// The fixed, well-known name of the log file inside an organized
/// directory.
pub open spec fn spec_log_file_name() -> Seq<char> {
    ".file-organizer-log.json"@
}

/// The fixed, well-known name of the log file inside an organized
/// directory. An organize run never classifies or moves this file.
pub fn log_file_name() -> (r: &'static str)
    ensures
        r@ == spec_log_file_name(),
{
    ".file-organizer-log.json"
}

} // verus!
