//! The strategy selection of a run: which search strategy was used for
//! each of the strategy kinds, plus helpers to render the selections that
//! actually differ between runs.

use vstd::prelude::*;
use vstd::string::StringExecFns;

use crate::text::str_eq;
use super::StatisticsFile;

verus! {

/// The serialisation shape of a strategy selection: one text field per
/// strategy kind, absent selections as empty strings.
#[derive(Debug)]
pub struct AlignmentStrategiesSerde {
    pub ts_node_ord_strategy: String,
    pub ts_min_length_strategy: String,
}

/// A run's strategy selection: the chosen strategy name for each strategy
/// kind, with the empty string standing for no selection.
#[derive(Debug)]
pub struct AlignmentStrategies {
    /// Strategy for ordering search nodes.
    pub node_ord: String,
    /// Strategy for the minimum template switch length.
    pub ts_min_length: String,
}

/// The strategy kinds a run selects a strategy for.
#[derive(Clone, Copy, Debug, PartialEq, Eq, Structural)]
pub enum AlignmentStrategyName {
    NodeOrd,
    TsMinLength,
}

impl AlignmentStrategies {
    /// The selected strategy for one strategy kind.
    pub open spec fn spec_get(self, name: AlignmentStrategyName) -> Seq<char> {
        match name {
            AlignmentStrategyName::NodeOrd => self.node_ord@,
            AlignmentStrategyName::TsMinLength => self.ts_min_length@,
        }
    }

    /// The selected strategy for one strategy kind.
    pub fn get(&self, name: AlignmentStrategyName) -> (r: &String)
        ensures
            r@ == self.spec_get(name),
    {
        match name {
            AlignmentStrategyName::NodeOrd => &self.node_ord,
            AlignmentStrategyName::TsMinLength => &self.ts_min_length,
        }
    }

    /// Whether the selection is the one used in the ari email experiments:
    /// anti-diagonal node ordering together with lookahead minimum length.
    pub open spec fn spec_is_ari_email(self) -> bool {
        self.node_ord@ == "anti-diagonal"@ && self.ts_min_length@ == "lookahead"@
    }

    /// Whether the selection is the one used in the ari email experiments.
    pub fn is_ari_email(&self) -> (r: bool)
        ensures
            r == self.spec_is_ari_email(),
    {
        str_eq(self.node_ord.as_str(), "anti-diagonal") && str_eq(
            self.ts_min_length.as_str(),
            "lookahead",
        )
    }
}

impl Clone for AlignmentStrategies {
    /// The clone selects the same strategies as the original.
    fn clone(&self) -> (r: Self)
        ensures
            r == *self,
    {
        AlignmentStrategies { node_ord: self.node_ord.clone(), ts_min_length: self.ts_min_length.clone() }
    }
}

impl Default for AlignmentStrategies {
    /// The empty selection: no strategy chosen for any kind.
    fn default() -> (r: Self)
        ensures
            r.node_ord@ == Seq::<char>::empty(),
            r.ts_min_length@ == Seq::<char>::empty(),
    {
        AlignmentStrategies { node_ord: String::new(), ts_min_length: String::new() }
    }
}

impl PartialEq for AlignmentStrategies {
    fn eq(&self, other: &Self) -> (r: bool) {
        str_eq(self.node_ord.as_str(), other.node_ord.as_str()) && str_eq(
            self.ts_min_length.as_str(),
            other.ts_min_length.as_str(),
        )
    }
}

impl vstd::std_specs::cmp::PartialEqSpecImpl for AlignmentStrategies {
    open spec fn obeys_eq_spec() -> bool {
        true
    }

    open spec fn eq_spec(&self, other: &Self) -> bool {
        self.node_ord@ == other.node_ord@ && self.ts_min_length@ == other.ts_min_length@
    }
}

impl From<AlignmentStrategies> for AlignmentStrategiesSerde {
    /// Moves each strategy kind's selection into its serialisation field.
    fn from(value: AlignmentStrategies) -> (r: Self) {
        AlignmentStrategiesSerde {
            ts_node_ord_strategy: value.node_ord,
            ts_min_length_strategy: value.ts_min_length,
        }
    }
}

impl vstd::std_specs::convert::FromSpecImpl<AlignmentStrategies> for AlignmentStrategiesSerde {
    open spec fn obeys_from_spec() -> bool {
        true
    }

    open spec fn from_spec(v: AlignmentStrategies) -> Self {
        AlignmentStrategiesSerde {
            ts_node_ord_strategy: v.node_ord,
            ts_min_length_strategy: v.ts_min_length,
        }
    }
}

impl From<AlignmentStrategiesSerde> for AlignmentStrategies {
    /// Moves each serialisation field into its strategy kind's selection.
    fn from(value: AlignmentStrategiesSerde) -> (r: Self) {
        AlignmentStrategies {
            node_ord: value.ts_node_ord_strategy,
            ts_min_length: value.ts_min_length_strategy,
        }
    }
}

impl vstd::std_specs::convert::FromSpecImpl<AlignmentStrategiesSerde> for AlignmentStrategies {
    open spec fn obeys_from_spec() -> bool {
        true
    }

    open spec fn from_spec(v: AlignmentStrategiesSerde) -> Self {
        AlignmentStrategies {
            node_ord: v.ts_node_ord_strategy,
            ts_min_length: v.ts_min_length_strategy,
        }
    }
}

impl AlignmentStrategyName {
    /// The human-readable label of the strategy kind.
    pub open spec fn spec_label(self) -> Seq<char> {
        match self {
            AlignmentStrategyName::NodeOrd => "node_ord"@,
            AlignmentStrategyName::TsMinLength => "ts_min_len"@,
        }
    }

    /// Renders the human-readable label of the strategy kind.
    pub fn label(&self) -> (r: String)
        ensures
            r@ == self.spec_label(),
    {
        match self {
            AlignmentStrategyName::NodeOrd => String::from_str("node_ord"),
            AlignmentStrategyName::TsMinLength => String::from_str("ts_min_len"),
        }
    }
}

/// Whether one strategy kind's selection differs between any two of the
/// given selections.
pub open spec fn spec_varies(
    selections: Seq<AlignmentStrategies>,
    name: AlignmentStrategyName,
) -> bool {
    exists|i: int, j: int|
        0 <= i < selections.len() && 0 <= j < selections.len() && selections[i].spec_get(name)
            != selections[j].spec_get(name)
}

/// The strategy kinds whose selection actually differs between the given
/// selections, in the fixed kind order.
pub open spec fn spec_relevant_strategies(
    selections: Seq<AlignmentStrategies>,
) -> Seq<AlignmentStrategyName> {
    let node = spec_varies(selections, AlignmentStrategyName::NodeOrd);
    let ts = spec_varies(selections, AlignmentStrategyName::TsMinLength);
    if node && ts {
        seq![AlignmentStrategyName::NodeOrd, AlignmentStrategyName::TsMinLength]
    } else if node {
        seq![AlignmentStrategyName::NodeOrd]
    } else if ts {
        seq![AlignmentStrategyName::TsMinLength]
    } else {
        Seq::<AlignmentStrategyName>::empty()
    }
}

/// Renders, for a chosen list of strategy kinds, the selections of one run,
/// as `"; kind selection"` fragments.
pub open spec fn spec_stringify(
    names: Seq<AlignmentStrategyName>,
    strategies: AlignmentStrategies,
) -> Seq<char>
    decreases names.len(),
{
    if names.len() == 0 {
        Seq::<char>::empty()
    } else {
        spec_stringify(names.drop_last(), strategies) + "; "@ + names.last().spec_label() + " "@
            + strategies.spec_get(names.last())
    }
}

/// Renders the strategy selections that carry information: the kinds whose
/// selection differs between runs of one batch.
pub struct AlignmentStrategyStringifyer {
    /// The strategy kinds to render, in the fixed kind order.
    pub relevant_strategies: Vec<AlignmentStrategyName>,
}

fn varies(selections: &Vec<AlignmentStrategies>, name: AlignmentStrategyName) -> (r: bool)
    ensures
        r == spec_varies(selections@, name),
{
    if selections.len() == 0 {
        assert(!spec_varies(selections@, name));
        return false;
    }
    let first = selections[0].get(name);
    let mut i: usize = 1;
    while i < selections.len()
        invariant
            1 <= i <= selections@.len(),
            forall|k: int|
                0 <= k < i ==> #[trigger] selections@[k].spec_get(name)
                    == selections@[0].spec_get(name),
        decreases selections.len() - i,
    {
        if !str_eq(selections[i].get(name).as_str(), first.as_str()) {
            assert(spec_varies(selections@, name)) by {
                assert(selections@[i as int].spec_get(name) != selections@[0].spec_get(name));
            }
            return true;
        }
        i += 1;
    }
    assert(!spec_varies(selections@, name)) by {
        assert forall|a: int, b: int|
            0 <= a < selections@.len() && 0 <= b < selections@.len()
            implies selections@[a].spec_get(name) == selections@[b].spec_get(name) by {
            assert(selections@[a].spec_get(name) == selections@[0].spec_get(name));
            assert(selections@[b].spec_get(name) == selections@[0].spec_get(name));
        }
    }
    false
}

impl AlignmentStrategyStringifyer {
    /// Finds the strategy kinds whose selection differs between the given
    /// selections; only those carry information worth rendering.
    pub fn new(strategy_selections: &Vec<AlignmentStrategies>) -> (r: Self)
        ensures
            r.relevant_strategies@ == spec_relevant_strategies(strategy_selections@),
    {
        let node = varies(strategy_selections, AlignmentStrategyName::NodeOrd);
        let ts = varies(strategy_selections, AlignmentStrategyName::TsMinLength);
        let mut relevant: Vec<AlignmentStrategyName> = Vec::new();
        if node {
            relevant.push(AlignmentStrategyName::NodeOrd);
        }
        if ts {
            relevant.push(AlignmentStrategyName::TsMinLength);
        }
        proof {
            assert(relevant@ =~= spec_relevant_strategies(strategy_selections@));
        }
        AlignmentStrategyStringifyer { relevant_strategies: relevant }
    }

    /// As [`Self::new`], over the strategy selections of the given runs.
    pub fn from_statistics_files(files: &Vec<StatisticsFile>) -> (r: Self)
        ensures
            r.relevant_strategies@ == spec_relevant_strategies(
                files@.map_values(|f: StatisticsFile| f.parameters.strategies),
            ),
    {
        let mut selections: Vec<AlignmentStrategies> = Vec::new();
        let mut i: usize = 0;
        while i < files.len()
            invariant
                i <= files.len(),
                selections@ =~= files@.take(i as int).map_values(
                    |f: StatisticsFile| f.parameters.strategies,
                ),
            decreases files.len() - i,
        {
            selections.push(files[i].parameters.strategies.clone());
            proof {
                assert(selections@ =~= files@.take(i as int + 1).map_values(
                    |f: StatisticsFile| f.parameters.strategies,
                ));
            }
            i += 1;
        }
        proof {
            assert(files@.take(files@.len() as int) =~= files@);
        }
        Self::new(&selections)
    }

    /// Renders the relevant strategy selections of one run.
    pub fn stringify(&self, file: &StatisticsFile) -> (r: String)
        ensures
            r@ == spec_stringify(self.relevant_strategies@, file.parameters.strategies),
    {
        let mut result = String::new();
        let mut i: usize = 0;
        while i < self.relevant_strategies.len()
            invariant
                i <= self.relevant_strategies@.len(),
                result@ == spec_stringify(
                    self.relevant_strategies@.take(i as int),
                    file.parameters.strategies,
                ),
            decreases self.relevant_strategies.len() - i,
        {
            let name = self.relevant_strategies[i];
            result.append("; ");
            let label = name.label();
            result.append(label.as_str());
            result.append(" ");
            result.append(file.parameters.strategies.get(name).as_str());
            proof {
                let names = self.relevant_strategies@;
                assert(names.take(i as int + 1).drop_last() =~= names.take(i as int));
                assert(names.take(i as int + 1).last() == names[i as int]);
            }
            i += 1;
        }
        proof {
            assert(self.relevant_strategies@.take(self.relevant_strategies@.len() as int)
                =~= self.relevant_strategies@);
        }
        result
    }
}

} // verus!
