use vstd::prelude::*;

verus! {

/// The sorting algorithms a worker can run.
#[derive(Clone, Copy, Debug, PartialEq, Eq, Structural)]
pub enum AlgoType {
    Bubblesort,
    Insertionsort,
    Mergesort,
}

/// The protocol name of an algorithm.
pub open spec fn algo_label(a: AlgoType) -> Seq<char> {
    match a {
        AlgoType::Bubblesort => "BUBBLE"@,
        AlgoType::Insertionsort => "INSERTION"@,
        AlgoType::Mergesort => "MERGE"@,
    }
}

impl AlgoType {
    /// The name under which the algorithm is shown and sent: `BUBBLE`,
    /// `INSERTION` or `MERGE`.
    pub fn to_string(&self) -> (s: String)
        ensures
            s@ == algo_label(*self),
    {
        match self {
            AlgoType::Bubblesort => String::from_str("BUBBLE"),
            AlgoType::Insertionsort => String::from_str("INSERTION"),
            AlgoType::Mergesort => String::from_str("MERGE"),
        }
    }
}

/// The statistics of one worker, as the dashboard shows them:
/// its name, its algorithm and `(time in µs, comparisons)` of its last run.
pub struct StatsMessage {
    pub name: String,
    pub type_algo: AlgoType,
    pub result: (u128, u64),
}

/// The mathematical value of a [`StatsMessage`].
pub struct StatsModel {
    pub name: Seq<char>,
    pub type_algo: AlgoType,
    pub result: (u128, u64),
}

impl View for StatsMessage {
    type V = StatsModel;

    open spec fn view(&self) -> StatsModel {
        StatsModel { name: self.name@, type_algo: self.type_algo, result: self.result }
    }
}

impl Clone for StatsMessage {
    fn clone(&self) -> (r: Self)
        ensures
            r == *self,
    {
        StatsMessage { name: self.name.clone(), type_algo: self.type_algo, result: self.result }
    }
}

/// The messages exchanged between the parts of the system.
pub enum TypeMessage {
    Connexion((String, AlgoType)),
    Tab(Vec<u64>),
    Resultmessage((u128, u64)),
    Stats(Vec<StatsMessage>),
}

impl Clone for TypeMessage {
    fn clone(&self) -> (r: Self)
        ensures
            r@ == self@,
    {
        match self {
            TypeMessage::Connexion((name, algo)) => TypeMessage::Connexion((name.clone(), *algo)),
            TypeMessage::Tab(v) => TypeMessage::Tab(v.clone()),
            TypeMessage::Resultmessage((t, c)) => TypeMessage::Resultmessage((*t, *c)),
            TypeMessage::Stats(v) => {
                let w = v.clone();
                assert(w@ =~= v@);
                TypeMessage::Stats(w)
            },
        }
    }
}

/// The mathematical value of a [`TypeMessage`].
pub enum MessageModel {
    Connexion(Seq<char>, AlgoType),
    Tab(Seq<u64>),
    Resultmessage(u128, u64),
    Stats(Seq<StatsModel>),
}

/// The models of a sequence of statistics.
pub open spec fn stats_models(s: Seq<StatsMessage>) -> Seq<StatsModel> {
    s.map_values(|x: StatsMessage| x@)
}

impl View for TypeMessage {
    type V = MessageModel;

    open spec fn view(&self) -> MessageModel {
        match self {
            TypeMessage::Connexion((name, algo)) => MessageModel::Connexion(name@, *algo),
            TypeMessage::Tab(v) => MessageModel::Tab(v@),
            TypeMessage::Resultmessage((t, c)) => MessageModel::Resultmessage(*t, *c),
            TypeMessage::Stats(v) => MessageModel::Stats(stats_models(v@)),
        }
    }
}

} // verus!
