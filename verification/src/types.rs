use vstd::prelude::*;

verus! {

/// Number of worker threads of the simulated concurrent history, the checker included.
pub const NUM_TOTAL_THRDS: u64 = 8;

/// Number of worker threads that produce methods.
pub const NUM_THRDS: u64 = NUM_TOTAL_THRDS - 1;

/// Number of methods each worker thread issues.
pub const TEST_SIZE: u64 = 10;

/// Whether an item is currently held by the data structure.
#[derive(PartialEq, Eq, Structural, Clone, Copy, Debug)]
pub enum Status {
    PRESENT,
    ABSENT,
}

/// The semantics of the concurrent data structure a method acts on.
#[derive(PartialEq, Eq, Structural, Clone, Copy, Debug)]
pub enum Semantics {
    FIFO,
    LIFO,
    SET,
    MAP,
    PRIORITY,
}

/// What a method does to the data structure.
#[derive(PartialEq, Eq, Structural, Clone, Copy, Debug)]
pub enum MethodType {
    PRODUCER,
    CONSUMER,
    READER,
    WRITER,
}

/// A transfer event as it arrives from the ledger: addresses and a value.
#[derive(Debug)]
pub struct Event {
    pub from: String,
    pub to: String,
    pub value: i32,
}

/// A transfer between two accounts, named by their numeric ids.
#[derive(PartialEq, Eq, Structural, Clone, Copy, Debug)]
pub struct Transaction {
    pub amount: i64,
    pub send_addr: i64,
    pub receive_addr: i64,
}

impl Transaction {
    /// Builds the transaction of an event, whose addresses were given the ids
    /// `sender_id` and `receiver_id`.
    pub fn from_event(e: Event, sender_id: i64, receiver_id: i64) -> (t: Self)
        ensures
            t.amount == e.value as i64,
            t.send_addr == sender_id,
            t.receive_addr == receiver_id,
    {
        Transaction { amount: e.value as i64, send_addr: sender_id, receive_addr: receiver_id }
    }
}

/// One method of a concurrent history: who ran it, on which item, when it
/// was invoked and when it responded, and whether it succeeded.
#[derive(PartialEq, Eq, Structural, Clone, Copy, Debug)]
pub struct Method {
    pub id: i64,
    pub process: i64,
    pub item_key: i64,
    pub item_val: i64,
    pub semantics: Semantics,
    pub MethodType: MethodType,
    pub invocation: i64,
    pub response: i64,
    pub quiescent_period: i64,
    pub status: bool,
}

impl Method {
    /// Builds a method; its quiescent period is not known yet and is set to -1.
    pub fn Method(
        _id: i64,
        _process: i64,
        _item_key: i64,
        _item_val: i64,
        _semantics: Semantics,
        _MethodType: MethodType,
        _invocation: i64,
        _response: i64,
        _status: bool,
    ) -> (m: Self)
        ensures
            m == (Method {
                id: _id,
                process: _process,
                item_key: _item_key,
                item_val: _item_val,
                semantics: _semantics,
                MethodType: _MethodType,
                invocation: _invocation,
                response: _response,
                quiescent_period: -1i64,
                status: _status,
            }),
    {
        Method {
            id: _id,
            process: _process,
            item_key: _item_key,
            item_val: _item_val,
            semantics: _semantics,
            MethodType: _MethodType,
            invocation: _invocation,
            response: _response,
            quiescent_period: -1,
            status: _status,
        }
    }
}

} // verus!
