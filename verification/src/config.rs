//! The fill configuration.

use crate::names::copy_name;
use crate::names::same_name;
use vstd::prelude::*;

verus! {

/// A kind of fill algorithm.
#[derive(Clone, Copy, Debug, PartialEq, Eq, Structural)]
pub enum AlgorithmKind {
    Square,
    Track,
    Overlap,
}

/// Overrides for one layer.
#[derive(Clone, Copy, Debug)]
pub struct LayerFillConfig {
    /// Target density, in millionths of a percent.
    pub density: i64,
    /// Deviation accepted from the target, in millionths of a percent.
    pub deviation: i64,
    /// Use only this kind of algorithm; without it, all of the layer in order.
    pub algorithm: Option<AlgorithmKind>,
}

/// A fill configuration.
#[derive(Debug)]
pub struct FillConfig {
    /// The process that the configuration is for.
    pub pdk: Option<String>,
    /// Overrides by layer name.
    pub layers: Option<Vec<(String, LayerFillConfig)>>,
}

/// The names of the first `n` entries.
pub open spec fn names_of(layers: Seq<(String, LayerFillConfig)>) -> Seq<Seq<char>> {
    layers.map_values(|l: (String, LayerFillConfig)| l.0@)
}

/// The first entry with the given name from position `i` on.
pub open spec fn find_override(layers: Seq<(String, LayerFillConfig)>, name: Seq<char>, i: int) -> Option<
    LayerFillConfig,
>
    decreases layers.len() - i,
{
    if i < 0 || i >= layers.len() {
        None
    } else if layers[i].0@ == name {
        Some(layers[i].1)
    } else {
        find_override(layers, name, i + 1)
    }
}

impl FillConfig {
    /// The names of all listed layers, none without a layer section.
    pub open spec fn names(self) -> Seq<Seq<char>> {
        match self.layers {
            Some(v) => names_of(v@),
            None => Seq::empty(),
        }
    }

    /// The overrides for a layer.
    pub open spec fn override_for(self, name: Seq<char>) -> Option<LayerFillConfig> {
        match self.layers {
            Some(v) => find_override(v@, name, 0),
            None => None,
        }
    }

    /// The names of all listed layers, none without a layer section.
    pub fn layer_names(&self) -> (names: Vec<String>)
        ensures
            names@.map_values(|s: String| s@) == self.names(),
    {
        let mut names: Vec<String> = Vec::new();
        if let Some(layers) = &self.layers {
            let mut i: usize = 0;
            while i < layers.len()
                invariant
                    i <= layers@.len(),
                    names@.len() == i,
                    forall|j: int| 0 <= j < i ==> (#[trigger] names@[j])@ == layers@[j].0@,
                decreases layers@.len() - i,
            {
                names.push(copy_name(layers[i].0.as_str()));
                i = i + 1;
            }
            assert(names@.map_values(|s: String| s@) =~= names_of(layers@));
        } else {
            assert(names@.map_values(|s: String| s@) =~= Seq::empty());
        }
        names
    }

    /// The overrides for a layer.
    pub fn layer(&self, name: &str) -> (r: Option<LayerFillConfig>)
        ensures
            r == self.override_for(name@),
    {
        match &self.layers {
            Some(layers) => {
                let mut i: usize = 0;
                while i < layers.len()
                    invariant
                        i <= layers@.len(),
                        self.override_for(name@) == find_override(layers@, name@, i as int),
                    decreases layers@.len() - i,
                {
                    if same_name(layers[i].0.as_str(), name) {
                        return Some(layers[i].1);
                    }
                    i = i + 1;
                }
                None
            },
            None => None,
        }
    }
}

/// An entry of the configuration overrides the layer of its name, unless one
/// before it has the same name.
pub proof fn first_entry_overrides(config: FillConfig, k: int)
    requires
        config.layers matches Some(v) && 0 <= k < v@.len(),
    ensures
        ({
            let list = config.layers->0@;
            (forall|j: int| 0 <= j < k ==> (#[trigger] list[j]).0@ != list[k].0@) ==> config.override_for(list[k].0@)
                == Some(list[k].1)
        }),
{
    let list = config.layers->0@;
    if forall|j: int| 0 <= j < k ==> (#[trigger] list[j]).0@ != list[k].0@ {
        entry_is_found(list, k, 0);
    }
}

proof fn entry_is_found(list: Seq<(String, LayerFillConfig)>, k: int, i: int)
    requires
        0 <= i <= k < list.len(),
        forall|j: int| 0 <= j < k ==> (#[trigger] list[j]).0@ != list[k].0@,
    ensures
        find_override(list, list[k].0@, i) == Some(list[k].1),
    decreases k - i,
{
    if i < k {
        assert(list[i].0@ != list[k].0@);
        entry_is_found(list, k, i + 1);
    }
}

/// A layer that the configuration does not name keeps its defaults.
pub proof fn unnamed_layer_has_no_override(config: FillConfig, name: Seq<char>)
    requires
        config.layers matches Some(v) ==> forall|j: int| 0 <= j < v@.len() ==> (#[trigger] v@[j]).0@ != name,
    ensures
        config.override_for(name) is None,
{
    if let Some(v) = config.layers {
        nothing_is_found(v@, name, 0);
    }
}

proof fn nothing_is_found(list: Seq<(String, LayerFillConfig)>, name: Seq<char>, i: int)
    requires
        0 <= i <= list.len(),
        forall|j: int| 0 <= j < list.len() ==> (#[trigger] list[j]).0@ != name,
    ensures
        find_override(list, name, i) is None,
    decreases list.len() - i,
{
    if i < list.len() {
        assert(list[i].0@ != name);
        nothing_is_found(list, name, i + 1);
    }
}

} // verus!
