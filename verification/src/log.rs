//! The diagnostics engine: messages with a severity and an optional
//! origin (source identifier and 0-based line number), accumulated by
//! a [`Logger`] and handed around as a [`LoggedResult`].  A nested
//! operation may log without knowing its caller's origin; the caller
//! back-fills its own origin into such entries when it merges them.
use vstd::prelude::*;

verus! {

#[derive(Debug, Eq, PartialEq, Clone, Copy, Structural)]
pub enum Level {
    Warning,
    Error,
}

pub ghost struct OriginV {
    pub file: Seq<char>,
    pub line: usize,
}

/// Where a diagnostic comes from: a source identifier and a 0-based
/// line number (rendered 1-based).
#[derive(Debug)]
pub struct Origin {
    pub file: String,
    pub line: usize,
}

impl View for Origin {
    type V = OriginV;

    open spec fn view(&self) -> OriginV {
        OriginV { file: self.file@, line: self.line }
    }
}

pub open spec fn opt_origin_view(o: Option<Origin>) -> Option<OriginV> {
    match o {
        Some(x) => Some(x@),
        None => None,
    }
}

pub ghost struct LogV {
    pub origin: Option<OriginV>,
    pub message: Seq<char>,
    pub level: Level,
}

/// One diagnostic message.
#[derive(Debug)]
pub struct Log {
    origin: Option<Origin>,
    message: String,
    level: Level,
}

impl View for Log {
    type V = LogV;

    closed spec fn view(&self) -> LogV {
        LogV { origin: opt_origin_view(self.origin), message: self.message@, level: self.level }
    }
}

impl Log {
    pub fn new(level: Level, origin: Option<Origin>, message: String) -> (r: Self)
        ensures
            r@ == (LogV { origin: opt_origin_view(origin), message: message@, level }),
    {
        Self { origin, message, level }
    }

    pub fn is_error(&self) -> (b: bool)
        ensures
            b == (self@.level is Error),
    {
        matches!(self.level, Level::Error)
    }

    /// The severity, for callers that render diagnostics themselves.
    pub fn level(&self) -> (l: Level)
        ensures
            l == self@.level,
    {
        self.level
    }

    /// The origin, if one was attached.
    pub fn origin(&self) -> (o: &Option<Origin>)
        ensures
            opt_origin_view(*o) == self@.origin,
    {
        &self.origin
    }

    /// The message text.
    pub fn message(&self) -> (m: &String)
        ensures
            m@ == self@.message,
    {
        &self.message
    }
}

pub open spec fn logs_view(ls: Seq<Log>) -> Seq<LogV> {
    ls.map_values(|l: Log| l@)
}

/// Whether any entry is an error.
pub open spec fn has_error(logs: Seq<LogV>) -> bool {
    exists|i: int| 0 <= i < logs.len() && (#[trigger] logs[i]).level is Error
}

fn clone_origin(o: &Option<Origin>) -> (r: Option<Origin>)
    ensures
        opt_origin_view(r) == opt_origin_view(*o),
{
    match o {
        Some(x) => Some(Origin { file: x.file.clone(), line: x.line }),
        None => None,
    }
}

/// Accumulates diagnostics; `origin` is attached to every message
/// logged while it is set.  The view is the sequence of entries so
/// far.
#[derive(Debug)]
pub struct Logger {
    pub origin: Option<Origin>,
    logs: Vec<Log>,
}

impl View for Logger {
    type V = Seq<LogV>;

    closed spec fn view(&self) -> Seq<LogV> {
        logs_view(self.logs@)
    }
}

impl Logger {
    /// The origin currently attached to new entries.
    pub closed spec fn spec_origin(&self) -> Option<OriginV> {
        opt_origin_view(self.origin)
    }

    pub fn new(origin: Option<Origin>) -> (r: Self)
        ensures
            r@ == Seq::<LogV>::empty(),
            r.spec_origin() == opt_origin_view(origin),
    {
        Self { origin, logs: Vec::new() }
    }

    /// Replaces the origin attached to new entries.
    pub fn set_origin(&mut self, origin: Option<Origin>)
        ensures
            final(self)@ == old(self)@,
            final(self).spec_origin() == opt_origin_view(origin),
    {
        self.origin = origin;
    }

    pub fn log_warning(&mut self, message: String)
        ensures
            final(self)@ == old(self)@.push(
                LogV {
                    origin: old(self).spec_origin(),
                    message: message@,
                    level: Level::Warning,
                },
            ),
            final(self).spec_origin() == old(self).spec_origin(),
    {
        let origin = clone_origin(&self.origin);
        let log = Log::new(Level::Warning, origin, message);
        self.logs.push(log);
        proof {
            assert(logs_view(self.logs@) =~= logs_view(old(self).logs@).push(log@));
        }
    }

    pub fn log_error(&mut self, message: String)
        ensures
            final(self)@ == old(self)@.push(
                LogV {
                    origin: old(self).spec_origin(),
                    message: message@,
                    level: Level::Error,
                },
            ),
            final(self).spec_origin() == old(self).spec_origin(),
    {
        let origin = clone_origin(&self.origin);
        let log = Log::new(Level::Error, origin, message);
        self.logs.push(log);
        proof {
            assert(logs_view(self.logs@) =~= logs_view(old(self).logs@).push(log@));
        }
    }

    pub fn is_error(&self) -> (b: bool)
        ensures
            b == has_error(self@),
    {
        let n = self.logs.len();
        let mut i: usize = 0;
        while i < n
            invariant
                i <= n,
                n == self.logs@.len(),
                !has_error(self@.subrange(0, i as int)),
            decreases n - i,
        {
            if self.logs[i].is_error() {
                proof {
                    assert(self@[i as int].level is Error);
                }
                return true;
            }
            proof {
                assert(self@.subrange(0, i + 1 as int) =~= self@.subrange(0, i as int).push(
                    self@[i as int],
                ));
            }
            i = i + 1;
        }
        proof {
            assert(self@.subrange(0, n as int) =~= self@);
        }
        false
    }

    /// Ends with no result, whatever was logged.
    pub fn into_none<T>(self) -> (r: LoggedResult<T>)
        ensures
            r.spec_result() is None,
            r.spec_logs() == self@,
    {
        LoggedResult { result: None, logs: self.logs }
    }

    /// Ends with the given result, unless an error was logged.
    pub fn into_result<T>(self, value: T) -> (r: LoggedResult<T>)
        ensures
            r.spec_logs() == self@,
            has_error(self@) ==> r.spec_result() is None,
            !has_error(self@) ==> r.spec_result() == Some(value),
    {
        let is_err = self.is_error();
        let result = if is_err {
            None
        } else {
            Some(value)
        };
        LoggedResult { result, logs: self.logs }
    }
}

/// Errors in a concatenation come from one side or the other.
pub proof fn lemma_has_error_split(a: Seq<LogV>, b: Seq<LogV>)
    ensures
        has_error(a + b) <==> (has_error(a) || has_error(b)),
{
    if has_error(a) {
        let i = choose|i: int| 0 <= i < a.len() && (#[trigger] a[i]).level is Error;
        assert((a + b)[i].level is Error);
    }
    if has_error(b) {
        let i = choose|i: int| 0 <= i < b.len() && (#[trigger] b[i]).level is Error;
        assert((a + b)[a.len() + i].level is Error);
    }
    if has_error(a + b) {
        let i = choose|i: int| 0 <= i < (a + b).len() && (#[trigger] (a + b)[i]).level is Error;
        if i < a.len() {
            assert(a[i].level is Error);
        } else {
            assert(b[i - a.len()].level is Error);
        }
    }
}

/// Back-fills the given origin into every entry that has none.
pub open spec fn backfill(logs: Seq<LogV>, origin: Option<OriginV>) -> Seq<LogV> {
    logs.map_values(
        |l: LogV|
            LogV {
                origin: if l.origin is None {
                    origin
                } else {
                    l.origin
                },
                message: l.message,
                level: l.level,
            },
    )
}

/// An optional result together with the diagnostics of the operation
/// that produced it.
pub struct LoggedResult<T> {
    result: Option<T>,
    logs: Vec<Log>,
}

impl<T> LoggedResult<T> {
    pub closed spec fn spec_result(&self) -> Option<T> {
        self.result
    }

    pub closed spec fn spec_logs(&self) -> Seq<LogV> {
        logs_view(self.logs@)
    }

    fn drain_logs(&mut self, logger: &mut Logger)
        ensures
            final(self).spec_logs() == Seq::<LogV>::empty(),
            final(self).spec_result() == old(self).spec_result(),
            final(logger)@ == old(logger)@ + backfill(
                old(self).spec_logs(),
                old(logger).spec_origin(),
            ),
            final(logger).spec_origin() == old(logger).spec_origin(),
    {
        let ghost drained = old(self).spec_logs();
        let ghost fill = old(logger).spec_origin();
        let ghost mut k: int = 0;
        while self.logs.len() > 0
            invariant
                0 <= k <= drained.len(),
                self.spec_logs() == drained.subrange(k, drained.len() as int),
                self.spec_result() == old(self).spec_result(),
                logger@ == old(logger)@ + backfill(drained.subrange(0, k), fill),
                logger.spec_origin() == old(logger).spec_origin(),
            decreases self.logs@.len(),
        {
            let ghost pre = self.logs@;
            let ghost pre_logger = logger.logs@;
            let log = self.logs.remove(0);
            proof {
                assert(logs_view(pre) == drained.subrange(k, drained.len() as int));
                assert(k < drained.len());
                assert(log@ == logs_view(pre)[0]);
                assert(log@ == drained[k]);
                pre.remove_ensures(0);
                assert(logs_view(self.logs@) =~= drained.subrange(k + 1, drained.len() as int))
                    by {
                    assert forall|m: int| 0 <= m < self.logs@.len() implies logs_view(
                        self.logs@,
                    )[m] == drained[k + 1 + m] by {
                        assert(logs_view(self.logs@)[m] == self.logs@[m]@);
                        assert(self.logs@[m] == pre[m + 1]);
                        assert(pre[m + 1]@ == logs_view(pre)[m + 1]);
                    }
                }
            }
            let filled = if log.origin.is_none() {
                let origin = clone_origin(&logger.origin);
                Log { origin, message: log.message, level: log.level }
            } else {
                log
            };
            logger.logs.push(filled);
            proof {
                let bf = LogV {
                    origin: if drained[k].origin is None {
                        fill
                    } else {
                        drained[k].origin
                    },
                    message: drained[k].message,
                    level: drained[k].level,
                };
                assert(filled@ == bf);
                assert(logs_view(logger.logs@) =~= logs_view(pre_logger).push(filled@));
                assert(drained.subrange(0, k + 1) =~= drained.subrange(0, k).push(drained[k]));
                assert(backfill(drained.subrange(0, k + 1), fill) =~= backfill(
                    drained.subrange(0, k),
                    fill,
                ).push(bf));
                assert(logs_view(logger.logs@) =~= old(logger)@ + backfill(
                    drained.subrange(0, k + 1),
                    fill,
                ));
            }
            proof {
                k = k + 1;
            }
        }
        proof {
            assert(drained.subrange(0, drained.len() as int) =~= drained);
            assert(self.spec_logs() =~= Seq::<LogV>::empty());
        }
    }

    /// Merges the diagnostics into `logger` (back-filling its origin
    /// where none was attached) and hands back the result.
    pub fn unwrap_logged(self, logger: &mut Logger) -> (r: Option<T>)
        ensures
            r == self.spec_result(),
            final(logger)@ == old(logger)@ + backfill(
                self.spec_logs(),
                old(logger).spec_origin(),
            ),
            final(logger).spec_origin() == old(logger).spec_origin(),
    {
        let mut s = self;
        s.drain_logs(logger);
        s.result
    }

    /// Merges the diagnostics into `logger` (back-filling its origin)
    /// and, when a result is there, hands it to the callback.
    pub fn if_ok<F: FnOnce(T)>(self, logger: &mut Logger, callback: F)
        requires
            forall|t: T| self.spec_result() == Some(t) ==> callback.requires((t,)),
        ensures
            final(logger)@ == old(logger)@ + backfill(
                self.spec_logs(),
                old(logger).spec_origin(),
            ),
            final(logger).spec_origin() == old(logger).spec_origin(),
            (self.spec_result() matches Some(t) ==> callback.ensures((t,), ())),
    {
        let mut s = self;
        s.drain_logs(logger);
        match s.result {
            Some(v) => callback(v),
            None => {},
        }
    }

    /// The raw parts: the result and the diagnostics.
    pub fn unwrap(self) -> (r: (Option<T>, Vec<Log>))
        ensures
            r.0 == self.spec_result(),
            logs_view(r.1@) == self.spec_logs(),
    {
        (self.result, self.logs)
    }

    pub fn is_ok(&self) -> (b: bool)
        ensures
            b == (self.spec_result() is Some),
    {
        self.result.is_some()
    }

    pub fn is_err(&self) -> (b: bool)
        ensures
            b == (self.spec_result() is None),
    {
        self.result.is_none()
    }
}

} // verus!
