//! The evaluations that a control endpoint has handed to the web view and
//! whose results are still awaited.

use vstd::prelude::*;
use vstd::string::StringExecFns;
use crate::registry::Registry;
use crate::text::decimal;
use crate::text::decimal_text;
use crate::text::hex_text;
use crate::text::lower_hex;

verus! {

/// The result of one evaluation, as far as it has arrived.
#[derive(Debug)]
pub struct EvalResult {
    pub ready: bool,
    pub value: Option<String>,
}

/// An evaluation result as a value.
pub struct EvalView {
    pub ready: bool,
    pub value: Option<Seq<char>>,
}

impl View for EvalResult {
    type V = EvalView;

    open spec fn view(&self) -> EvalView {
        EvalView {
            ready: self.ready,
            value: match self.value {
                Some(v) => Some(v@),
                None => None,
            },
        }
    }
}

/// The port of the control endpoint and the evaluations awaited, by id.
pub struct ApiServerState {
    pub port: u16,
    pending_evals: Registry<EvalResult>,
}

/// `eval_` and the time in nanoseconds as lower-case hexadecimal.
pub open spec fn eval_id(nanos: u128) -> Seq<char> {
    "eval_"@ + lower_hex(nanos as nat)
}

/// A simple unique id: the time in nanoseconds since the epoch, in
/// hexadecimal.
pub fn uuid_simple(nanos: u128) -> (s: String)
    ensures
        s@ == lower_hex(nanos as nat),
{
    hex_text(nanos)
}

/// A simple timestamp: the seconds since the epoch, in decimal.
pub fn chrono_simple(secs: u64) -> (s: String)
    ensures
        s@ == decimal(secs as nat),
{
    decimal_text(secs as u128)
}

impl ApiServerState {
    /// The evaluations awaited, by id.
    pub closed spec fn pending(&self) -> Map<Seq<char>, EvalView> {
        self.pending_evals.map().map_values(|r: EvalResult| r@)
    }

    /// The port of the control endpoint.
    pub closed spec fn port_number(&self) -> u16 {
        self.port
    }

    /// Every id is listed once.
    pub closed spec fn wf(&self) -> bool {
        self.pending_evals.wf()
    }

    /// The state of an endpoint on `port` that awaits nothing.
    pub fn new(port: u16) -> (s: ApiServerState)
        ensures
            s.wf(),
            s.port_number() == port,
            s.pending() == Map::<Seq<char>, EvalView>::empty(),
    {
        let s = ApiServerState { port, pending_evals: Registry::new() };
        assert(s.pending() =~= Map::<Seq<char>, EvalView>::empty());
        s
    }

    /// Registers an evaluation under the id that the time `nanos` gives
    /// and returns the id. An evaluation already awaited under that id is
    /// replaced.
    pub fn register_eval(&mut self, nanos: u128) -> (id: String)
        requires
            old(self).wf(),
        ensures
            final(self).wf(),
            final(self).port_number() == old(self).port_number(),
            id@ == eval_id(nanos),
            final(self).pending() == old(self).pending().insert(
                id@,
                EvalView { ready: false, value: None },
            ),
    {
        let id = String::from_str("eval_").concat(uuid_simple(nanos).as_str());
        let fresh = EvalResult { ready: false, value: None };
        self.pending_evals.insert(id.as_str(), fresh);
        assert(self.pending() =~= old(self).pending().insert(
            id@,
            EvalView { ready: false, value: None },
        ));
        id
    }

    /// Delivers the result of the evaluation `id`: its value is set and it
    /// is ready. A result for an evaluation that is not awaited is dropped.
    pub fn deliver_result(&mut self, id: &str, value: String)
        requires
            old(self).wf(),
        ensures
            final(self).wf(),
            final(self).port_number() == old(self).port_number(),
            final(self).pending() == (if old(self).pending().contains_key(id@) {
                old(self).pending().insert(id@, EvalView { ready: true, value: Some(value@) })
            } else {
                old(self).pending()
            }),
    {
        match self.pending_evals.find(id) {
            Some(i) => {
                self.pending_evals.set(i, EvalResult { ready: true, value: Some(value) });
                assert(self.pending() =~= old(self).pending().insert(
                    id@,
                    EvalView { ready: true, value: Some(value@) },
                ));
            },
            None => {},
        }
    }

    /// The result awaited under `id`, as far as it has arrived: whether it
    /// is ready, and its value.
    pub fn result_of(&self, id: &str) -> (r: Option<(bool, Option<String>)>)
        requires
            self.wf(),
        ensures
            match r {
                Some((ready, value)) => self.pending().contains_key(id@) && self.pending()[id@]
                    == (EvalView {
                    ready,
                    value: match value {
                        Some(v) => Some(v@),
                        None => None,
                    },
                }),
                None => !self.pending().contains_key(id@),
            },
    {
        match self.pending_evals.find(id) {
            Some(i) => {
                let result = self.pending_evals.value(i);
                let value: Option<String> = match &result.value {
                    Some(v) => Some(v.clone()),
                    None => None,
                };
                Some((result.ready, value))
            },
            None => None,
        }
    }

    /// Forgets the evaluation `id`.
    pub fn cleanup_eval(&mut self, id: &str)
        requires
            old(self).wf(),
        ensures
            final(self).wf(),
            final(self).port_number() == old(self).port_number(),
            final(self).pending() == old(self).pending().remove(id@),
    {
        let _ = self.pending_evals.remove(id);
        assert(self.pending() =~= old(self).pending().remove(id@));
    }
}

} // verus!
