//! The query side: decoding stored snapshots and answering the calls that a
//! visualizer makes on them.

use vstd::prelude::*;
use crate::clock::now;
use crate::error::{DerivationError, ParseError, QueryError};
use crate::record::{decode, decoded};
use crate::sampler::ProcessesRaw;
use crate::snapshot::{in_time_order, records_view, snapshots_view, Processes, SampleEntry, Snapshot};
use crate::values::{derived, get_values, EndEntries, Ranking};

verus! {

/// The error of `serde_urlencoded::from_str`. Nothing is known of its contents.
#[verifier::external_type_specification]
#[verifier::external_body]
pub struct ExQueryDecodeError(serde_urlencoded::de::Error);

/// The pairs that `serde_urlencoded::from_str` reads from a query, or
/// `None` where it rejects the query.
pub uninterp spec fn query_pairs(query: Seq<char>) -> Option<Seq<(Seq<char>, Seq<char>)>>;

/// The pairs of a vector of pairs of strings.
pub open spec fn pairs_view(pairs: Seq<(String, String)>) -> Seq<(Seq<char>, Seq<char>)> {
    Seq::new(pairs.len(), |i: int| (pairs[i].0@, pairs[i].1@))
}

/// Reads a query of the form `key=value&key=value`.
///
/// Calls `serde_urlencoded::from_str` for a vector of pairs of strings.
/// Nothing is proved of it: its result is taken to depend on the query
/// alone, and is named `query_pairs`.
#[verifier::external_body]
fn parse_query(query: &str) -> (parsed: Result<Vec<(String, String)>, serde_urlencoded::de::Error>)
    ensures
        match parsed {
            Ok(pairs) => query_pairs(query@) == Some(pairs_view(pairs@)),
            Err(_) => query_pairs(query@) is None,
        },
{
    serde_urlencoded::from_str::<Vec<(String, String)>>(query)
}

/// A call that can be made on a run of snapshots.
#[derive(Debug, Clone, Copy, PartialEq, Eq, Structural)]
pub enum Call {
    /// The ranked utilization series.
    Values,
}

/// The name of the one call that is offered.
pub open spec fn values_call() -> Seq<char> {
    seq!['v', 'a', 'l', 'u', 'e', 's']
}

/// The call that the pairs of a query ask for: the value of the second pair
/// names it.
pub open spec fn call_of(pairs: Seq<(Seq<char>, Seq<char>)>) -> Result<Call, QueryError> {
    if pairs.len() < 2 {
        Err(QueryError::NotEnoughArguments)
    } else if pairs[1].1 == values_call() {
        Ok(Call::Values)
    } else {
        Err(QueryError::UnsupportedApi)
    }
}

/// The answer to a query on a run of snapshots.
pub open spec fn answer(
    pairs: Option<Seq<(Seq<char>, Seq<char>)>>,
    snapshots: Seq<Snapshot>,
    ticks_per_second: nat,
) -> Result<Ranking, QueryError> {
    match pairs {
        None => Err(QueryError::MalformedQuery),
        Some(pairs) => match call_of(pairs) {
            Err(error) => Err(error),
            Ok(Call::Values) => match derived(snapshots, ticks_per_second) {
                Ok(ranking) => Ok(ranking),
                Err(error) => Err(QueryError::Derivation(error)),
            },
        },
    }
}

/// The call that the pairs of a query ask for.
pub fn requested_call(pairs: &Vec<(String, String)>) -> (call: Result<Call, QueryError>)
    ensures
        call == call_of(pairs_view(pairs@)),
{
    if pairs.len() < 2 {
        return Err(QueryError::NotEnoughArguments);
    }
    proof {
        reveal_strlit("values");
        assert("values"@ =~= values_call());
    }
    let wanted = "values".to_owned();
    if pairs[1].1 == wanted {
        Ok(Call::Values)
    } else {
        Err(QueryError::UnsupportedApi)
    }
}

impl Processes {
    /// An empty snapshot, stamped with the current time.
    pub fn new() -> (processes: Self)
        ensures
            processes.entries@ == Seq::<SampleEntry>::empty(),
    {
        Self::stamped(now())
    }

    /// An empty snapshot stamped with `time`.
    pub fn stamped(time: i64) -> (processes: Self)
        ensures
            processes.time == time,
            processes.entries@ == Seq::<SampleEntry>::empty(),
    {
        Processes { time, entries: Vec::new() }
    }

    /// Decodes a stored snapshot.
    ///
    /// Fails exactly when some line of its text does not write a sample.
    pub fn process_raw_data(&mut self, buffer: ProcessesRaw) -> (processed: Result<
        Processes,
        ParseError,
    >)
        ensures
            *final(self) == *old(self),
            match decoded(buffer.data@) {
                Some(records) => processed matches Ok(held) && held@ == (Snapshot {
                    time: buffer.time as int,
                    entries: records,
                }),
                None => processed == Err::<Processes, ParseError>(ParseError::MalformedRecord),
            },
    {
        match decode(buffer.data.as_str()) {
            Ok(entries) => Ok(Processes { time: buffer.time, entries }),
            Err(error) => Err(error),
        }
    }

    /// The names of the calls that `get_data` answers.
    pub fn get_calls(&mut self) -> (calls: Vec<String>)
        ensures
            *final(self) == *old(self),
            calls@.len() == 1,
            calls@[0]@ == values_call(),
    {
        proof {
            reveal_strlit("values");
            assert("values"@ =~= values_call());
        }
        let mut calls: Vec<String> = Vec::new();
        calls.push("values".to_owned());
        calls
    }

    /// Answers a query on a run of decoded snapshots.
    ///
    /// The snapshots must be in time order and the tick rate positive.
    pub fn get_data(&mut self, buffer: Vec<Processes>, query: String, ticks_per_second: u64) -> (data:
        Result<EndEntries, QueryError>)
        requires
            ticks_per_second > 0,
            in_time_order(snapshots_view(buffer@)),
        ensures
            *final(self) == *old(self),
            match answer(query_pairs(query@), snapshots_view(buffer@), ticks_per_second as nat) {
                Ok(ranking) => data matches Ok(held) && held@ == ranking,
                Err(error) => data == Err::<EndEntries, QueryError>(error),
            },
    {
        let pairs = match parse_query(query.as_str()) {
            Ok(pairs) => pairs,
            Err(_) => {
                return Err(QueryError::MalformedQuery);
            },
        };
        match requested_call(&pairs) {
            Err(error) => Err(error),
            Ok(Call::Values) => match get_values(buffer, ticks_per_second) {
                Ok(ranking) => Ok(ranking),
                Err(error) => Err(QueryError::Derivation(error)),
            },
        }
    }
}

} // verus!
