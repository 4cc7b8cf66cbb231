//! What a run works with: the process, its configuration and its description.

use crate::config::FillConfig;
use crate::names::copy_name;
use crate::names::same_name;
use crate::order::is_ranking;
use crate::order::sort_indices;
use crate::pdk::find_layer;
use crate::pdk::find_layer_finds;
use crate::pdk::gf180mcu;
use crate::pdk::PdkConstants;
use crate::pdk::PdkLayer;
use vstd::prelude::*;

verus! {

/// Datatype of keep-outs written for inspection.
pub const DEBUG_KEEPOUT_DT: i16 = 250;

/// Datatype of merged shapes written for inspection.
pub const DEBUG_MERGED_DT: i16 = 251;

/// A family of processes.
#[derive(Clone, Copy, Debug, PartialEq, Eq, Structural)]
pub enum ProcessFamily {
    IhpSg13,
    Gf180mcu,
}

/// The family of a process name.
pub open spec fn family_of_process(process: Seq<char>) -> Option<ProcessFamily> {
    if process == "ihp-sg13g2"@ || process == "ihp-sg13cmos5l"@ {
        Some(ProcessFamily::IhpSg13)
    } else if gf_variant(process) is Some {
        Some(ProcessFamily::Gf180mcu)
    } else {
        None
    }
}

/// The variant letter of a GF180MCU process name.
pub open spec fn gf_variant(process: Seq<char>) -> Option<char> {
    if process == "gf180mcuA"@ {
        Some('A')
    } else if process == "gf180mcuB"@ {
        Some('B')
    } else if process == "gf180mcuC"@ {
        Some('C')
    } else if process == "gf180mcuD"@ {
        Some('D')
    } else {
        None
    }
}

/// The variant letter of a GF180MCU process name.
fn find_gf_variant(process: &str) -> (v: Option<char>)
    ensures
        v == gf_variant(process@),
{
    if same_name(process, "gf180mcuA") {
        Some('A')
    } else if same_name(process, "gf180mcuB") {
        Some('B')
    } else if same_name(process, "gf180mcuC") {
        Some('C')
    } else if same_name(process, "gf180mcuD") {
        Some('D')
    } else {
        None
    }
}

/// The family of a process name, `None` if it is unknown.
pub fn process_family(process: &str) -> (f: Option<ProcessFamily>)
    ensures
        f == family_of_process(process@),
{
    if same_name(process, "ihp-sg13g2") || same_name(process, "ihp-sg13cmos5l") {
        return Some(ProcessFamily::IhpSg13);
    }
    match find_gf_variant(process) {
        Some(_) => Some(ProcessFamily::Gf180mcu),
        None => None,
    }
}

/// The layers of an IHP SG13 process.
pub open spec fn ihp_layers(process: Seq<char>) -> Seq<Seq<char>> {
    if process == "ihp-sg13g2"@ {
        seq![
            "Activ"@,
            "GatPoly"@,
            "Metal1"@,
            "Metal2"@,
            "Metal3"@,
            "Metal4"@,
            "Metal5"@,
            "TopMetal1"@,
            "TopMetal2"@,
        ]
    } else {
        seq!["Activ"@, "GatPoly"@, "Metal1"@, "Metal2"@, "Metal3"@, "Metal4"@, "TopMetal1"@]
    }
}

/// The layers of a GF180MCU process with `n` metals.
pub open spec fn gf_layers(n: int) -> Seq<Seq<char>> {
    seq!["COMP"@, "Poly2"@] + Seq::new(n as nat, |i: int| gf180mcu::metal_name(i))
}

/// The layers of a process.
pub open spec fn process_layers(process: Seq<char>) -> Seq<Seq<char>> {
    match gf_variant(process) {
        Some(v) => gf_layers(gf180mcu::metal_count(v)->0),
        None => ihp_layers(process),
    }
}

impl PdkConstants {
    /// A layer of this name is in the table.
    pub open spec fn has_layer(self, name: Seq<char>) -> bool {
        exists|k: int| 0 <= k < self.layers@.len() && (#[trigger] self.layers@[k]).0@ == name
    }

    /// The table has exactly the named layers, each once.
    pub open spec fn is_table_of(self, names: Seq<Seq<char>>) -> bool {
        &&& self.names_distinct()
        &&& forall|k: int| 0 <= k < self.layers@.len() ==> names.contains((#[trigger] self.layers@[k]).0@)
        &&& forall|i: int| 0 <= i < names.len() ==> self.has_layer(#[trigger] names[i])
    }

    /// Do layer names occur once?
    pub fn check_names(&self) -> (b: bool)
        ensures
            b == self.names_distinct(),
    {
        let n = self.layers.len();
        let mut i: usize = 0;
        while i < n
            invariant
                n == self.layers@.len(),
                i <= n,
                forall|a: int, b: int|
                    0 <= a < i && a < b < n ==> (#[trigger] self.layers@[a]).0@ != (#[trigger] self.layers@[b]).0@,
            decreases n - i,
        {
            let mut j: usize = i + 1;
            while j < n
                invariant
                    n == self.layers@.len(),
                    i < j <= n,
                    forall|b: int| i < b < j ==> self.layers@[i as int].0@ != (#[trigger] self.layers@[b]).0@,
                decreases n - j,
            {
                if same_name(self.layers[i].0.as_str(), self.layers[j].0.as_str()) {
                    assert(self.layers@[i as int].0@ == self.layers@[j as int].0@);
                    return false;
                }
                j = j + 1;
            }
            i = i + 1;
        }
        true
    }

    /// Does the table have exactly the named layers, each once?
    fn check_table(&self, names: &Vec<&'static str>) -> (b: bool)
        ensures
            b == self.is_table_of(names_of(names@)),
    {
        let ghost list = names_of(names@);
        if !self.check_names() {
            return false;
        }
        let mut k: usize = 0;
        while k < self.layers.len()
            invariant
                k <= self.layers@.len(),
                list == names_of(names@),
                forall|a: int| 0 <= a < k ==> list.contains((#[trigger] self.layers@[a]).0@),
            decreases self.layers@.len() - k,
        {
            let mut found: bool = false;
            let mut i: usize = 0;
            while i < names.len()
                invariant
                    k < self.layers@.len(),
                    i <= names@.len(),
                    list == names_of(names@),
                    found ==> list.contains(self.layers@[k as int].0@),
                    !found ==> forall|j: int| 0 <= j < i ==> #[trigger] list[j] != self.layers@[k as int].0@,
                decreases names@.len() - i,
            {
                if same_name(self.layers[k].0.as_str(), names[i]) {
                    assert(list[i as int] == self.layers@[k as int].0@);
                    found = true;
                }
                i = i + 1;
            }
            if !found {
                assert(!list.contains(self.layers@[k as int].0@));
                return false;
            }
            k = k + 1;
        }
        let mut i: usize = 0;
        while i < names.len()
            invariant
                i <= names@.len(),
                list == names_of(names@),
                forall|j: int| 0 <= j < i ==> self.has_layer(#[trigger] list[j]),
            decreases names@.len() - i,
        {
            assert(list[i as int] == names@[i as int]@);
            match self.position(names[i]) {
                Some(p) => {
                    proof {
                        find_layer_finds(self.layers@, list[i as int], 0);
                        assert(self.layers@[p as int].0@ == list[i as int]);
                    }
                },
                None => {
                    proof {
                        find_layer_finds(self.layers@, list[i as int], 0);
                        assert(!self.has_layer(list[i as int]));
                    }
                    return false;
                },
            }
            i = i + 1;
        }
        true
    }

    /// The description of the named process: for GF180MCU that of the variant,
    /// for IHP SG13 the layer table handed in.  `None` if the process is
    /// unknown, or if there is no table or not one with its layers.
    pub fn for_process(process: &str, ihp_table: Option<PdkConstants>) -> (r: Option<PdkConstants>)
        ensures
            match family_of_process(process@) {
                Some(ProcessFamily::IhpSg13) => r == if ihp_table is Some && ihp_table->0.is_table_of(
                    ihp_layers(process@),
                ) {
                    ihp_table
                } else {
                    None
                },
                Some(ProcessFamily::Gf180mcu) => r matches Some(pdk) && gf180mcu::is_stack(
                    pdk,
                    gf180mcu::metal_count(gf_variant(process@)->0)->0,
                ),
                None => r is None,
            },
            r matches Some(pdk) ==> pdk.is_table_of(process_layers(process@)),
    {
        match process_family(process) {
            Some(ProcessFamily::IhpSg13) => {
                let names = list_ihp_layers(process);
                proof {
                    variants_are_not_ihp(process@);
                }
                match ihp_table {
                    Some(t) => if t.check_table(&names) {
                        Some(t)
                    } else {
                        None
                    },
                    None => None,
                }
            },
            Some(ProcessFamily::Gf180mcu) => {
                match find_gf_variant(process) {
                    Some(v) => {
                        let out = gf180mcu::for_variant(v);
                        proof {
                            stack_has_its_layers(out->0, gf180mcu::metal_count(v)->0);
                        }
                        out
                    },
                    None => None,
                }
            },
            None => None,
        }
    }
}

/// The texts of a list of names.
pub open spec fn names_of(names: Seq<&'static str>) -> Seq<Seq<char>> {
    names.map_values(|s: &'static str| s@)
}

/// The layers of an IHP SG13 process.
fn list_ihp_layers(process: &str) -> (v: Vec<&'static str>)
    ensures
        names_of(v@) == ihp_layers(process@),
{
    let mut v: Vec<&'static str> = Vec::new();
    v.push("Activ");
    v.push("GatPoly");
    v.push("Metal1");
    v.push("Metal2");
    v.push("Metal3");
    v.push("Metal4");
    if same_name(process, "ihp-sg13g2") {
        v.push("Metal5");
        v.push("TopMetal1");
        v.push("TopMetal2");
    } else {
        v.push("TopMetal1");
    }
    assert(names_of(v@) =~= ihp_layers(process@));
    v
}

proof fn variants_are_not_ihp(process: Seq<char>)
    requires
        family_of_process(process) == Some(ProcessFamily::IhpSg13),
    ensures
        gf_variant(process) is None,
{
    reveal_strlit("ihp-sg13g2");
    reveal_strlit("ihp-sg13cmos5l");
    reveal_strlit("gf180mcuA");
    reveal_strlit("gf180mcuB");
    reveal_strlit("gf180mcuC");
    reveal_strlit("gf180mcuD");
    assert(process[0] == 'i');
}

/// The table of a variant has its layers, each once.
pub proof fn stack_has_its_layers(pdk: PdkConstants, n: int)
    requires
        gf180mcu::is_stack(pdk, n),
        0 < n <= 5,
    ensures
        pdk.is_table_of(gf_layers(n)),
{
    gf180mcu::stack_names_are_distinct(pdk, n);
    let names = gf_layers(n);
    assert forall|k: int| 0 <= k < pdk.layers@.len() implies names.contains((#[trigger] pdk.layers@[k]).0@) by {
        if k >= 2 {
            assert(pdk.layers@[(k - 2) + 2].0@ == gf180mcu::metal_name(k - 2));
        }
        assert(names[k] == pdk.layers@[k].0@);
    }
    assert forall|i: int| 0 <= i < names.len() implies pdk.has_layer(#[trigger] names[i]) by {
        if i >= 2 {
            assert(pdk.layers@[(i - 2) + 2].0@ == gf180mcu::metal_name(i - 2));
        }
        assert(pdk.layers@[i].0@ == names[i]);
    }
}

/// Why a run cannot start.
#[derive(Debug)]
pub enum ContextError {
    /// The configuration is for another process.
    ProcessMismatch {
        process: String,
        config_pdk: String,
    },
    /// There is no description of the process.
    UnknownProcess(String),
}

/// The configuration is for another process.
pub open spec fn is_mismatch(process: Seq<char>, config: Option<FillConfig>) -> bool {
    config is Some && config->0.pdk is Some && config->0.pdk->0@ != process
}

/// Check that the configuration, if it names a process, names this one.
pub fn validate_process(process: &str, config: &Option<FillConfig>) -> (r: Result<(), ContextError>)
    ensures
        r is Err <==> is_mismatch(process@, *config),
        r matches Err(e) ==> (e matches ContextError::ProcessMismatch { process: p, config_pdk: c } && p@ == process@
            && c@ == config->0.pdk->0@),
{
    if let Some(c) = config {
        if let Some(pdk) = &c.pdk {
            if !same_name(pdk.as_str(), process) {
                return Err(
                    ContextError::ProcessMismatch {
                        process: copy_name(process),
                        config_pdk: copy_name(pdk.as_str()),
                    },
                );
            }
        }
    }
    Ok(())
}

/// The process, its configuration and its description.
#[derive(Debug)]
pub struct RunContext {
    pub process: String,
    pub config: Option<FillConfig>,
    pub pdk: PdkConstants,
}

impl RunContext {
    /// The context of a run.  The configuration has to be for the process, and
    /// the process has to be known.
    pub fn new(process: &str, config: Option<FillConfig>, ihp_table: Option<PdkConstants>) -> (r: Result<
        RunContext,
        ContextError,
    >)
        ensures
            r is Ok <==> !is_mismatch(process@, config) && (family_of_process(process@) == Some(
                ProcessFamily::Gf180mcu,
            ) || (family_of_process(process@) == Some(ProcessFamily::IhpSg13) && ihp_table is Some
                && ihp_table->0.is_table_of(ihp_layers(process@)))),
            r matches Ok(c) ==> c.process@ == process@ && c.config == config && match family_of_process(process@) {
                Some(ProcessFamily::IhpSg13) => Some(c.pdk) == ihp_table,
                _ => gf180mcu::is_stack(c.pdk, gf180mcu::metal_count(gf_variant(process@)->0)->0),
            },
            r matches Err(e) ==> if is_mismatch(process@, config) {
                e matches ContextError::ProcessMismatch { process: p, config_pdk: c } && p@ == process@ && c@
                    == config->0.pdk->0@
            } else {
                e matches ContextError::UnknownProcess(p) && p@ == process@
            },
    {
        match validate_process(process, &config) {
            Ok(()) => {},
            Err(e) => {
                return Err(e);
            },
        }
        match PdkConstants::for_process(process, ihp_table) {
            Some(pdk) => Ok(RunContext { process: copy_name(process), config, pdk }),
            None => Err(ContextError::UnknownProcess(copy_name(process))),
        }
    }

    /// The names that the configuration restricts the run to; none if there is
    /// no restriction.
    pub open spec fn filter(self) -> Seq<Seq<char>> {
        match self.config {
            Some(c) => c.names(),
            None => Seq::empty(),
        }
    }

    /// The positions of the layers that the first `n` names select.
    pub open spec fn named_layers(self, names: Seq<Seq<char>>, n: int) -> Seq<int>
        decreases n,
    {
        if n <= 0 {
            Seq::empty()
        } else {
            match find_layer(self.pdk.layers@, names[n - 1], 0) {
                Some(k) => self.named_layers(names, n - 1).push(k),
                None => self.named_layers(names, n - 1),
            }
        }
    }

    /// The positions of the selected layers: those that the configuration
    /// names, in its order, or all.
    pub open spec fn selected(self) -> Seq<int> {
        if self.filter().len() == 0 {
            Seq::new(self.pdk.layers@.len(), |i: int| i)
        } else {
            self.named_layers(self.filter(), self.filter().len() as int)
        }
    }

    /// `out` holds the selected positions by ascending GDS layer; equal ones
    /// stay in order.
    pub open spec fn is_target_list(self, out: Seq<usize>) -> bool {
        exists|order: Seq<usize>|
            #![trigger is_ranking(self.layer_keys(), order)]
            is_ranking(self.layer_keys(), order) && out.len() == order.len() && forall|i: int|
                0 <= i < out.len() ==> (#[trigger] out[i]) == self.selected()[order[i] as int]
    }

    /// The GDS layers of the selected layers.
    pub open spec fn layer_keys(self) -> Seq<i128> {
        self.selected().map_values(|k: int| self.pdk.layers@[k].1.gds_layer as i128)
    }
}

/// The positions of the selected layers.
fn select(ctx: &RunContext) -> (v: Vec<usize>)
    ensures
        v@.len() == ctx.selected().len(),
        forall|i: int| 0 <= i < v@.len() ==> (#[trigger] v@[i]) == ctx.selected()[i] && v@[i] < ctx.pdk.layers@.len(),
{
    let mut v: Vec<usize> = Vec::new();
    let names: Vec<String> = match &ctx.config {
        Some(c) => c.layer_names(),
        None => Vec::new(),
    };
    let ghost filter = ctx.filter();
    assert(names@.map_values(|s: String| s@) =~= filter);
    if names.len() == 0 {
        let mut i: usize = 0;
        while i < ctx.pdk.layers.len()
            invariant
                i <= ctx.pdk.layers@.len(),
                v@.len() == i,
                forall|k: int| 0 <= k < i ==> (#[trigger] v@[k]) == k,
            decreases ctx.pdk.layers@.len() - i,
        {
            v.push(i);
            i = i + 1;
        }
        return v;
    }
    let mut i: usize = 0;
    while i < names.len()
        invariant
            i <= names@.len(),
            filter == ctx.filter(),
            names@.map_values(|s: String| s@) == filter,
            v@.len() == ctx.named_layers(filter, i as int).len(),
            forall|k: int|
                0 <= k < v@.len() ==> (#[trigger] v@[k]) == ctx.named_layers(filter, i as int)[k] && v@[k]
                    < ctx.pdk.layers@.len(),
        decreases names@.len() - i,
    {
        assert(filter[i as int] == names@[i as int]@);
        if let Some(p) = ctx.pdk.position(names[i].as_str()) {
            v.push(p);
        }
        i = i + 1;
    }
    v
}

/// The positions of the layers to work on, by ascending GDS layer: all, or
/// those that the configuration names.
pub fn target_positions(ctx: &RunContext) -> (out: Vec<usize>)
    ensures
        ctx.is_target_list(out@),
        forall|i: int| 0 <= i < out@.len() ==> (#[trigger] out@[i]) < ctx.pdk.layers@.len(),
{
    let selected = select(ctx);
    let mut keys: Vec<i128> = Vec::new();
    let mut i: usize = 0;
    while i < selected.len()
        invariant
            i <= selected@.len(),
            selected@.len() == ctx.selected().len(),
            forall|k: int|
                0 <= k < selected@.len() ==> (#[trigger] selected@[k]) == ctx.selected()[k] && selected@[k]
                    < ctx.pdk.layers@.len(),
            keys@.len() == i,
            forall|k: int| 0 <= k < i ==> (#[trigger] keys@[k]) == ctx.layer_keys()[k],
        decreases selected@.len() - i,
    {
        assert(selected@[i as int] < ctx.pdk.layers@.len());
        keys.push(ctx.pdk.layers[selected[i]].1.gds_layer as i128);
        i = i + 1;
    }
    assert(keys@ =~= ctx.layer_keys());
    let order = sort_indices(&keys);
    let mut out: Vec<usize> = Vec::new();
    let mut i: usize = 0;
    while i < order.len()
        invariant
            i <= order@.len(),
            is_ranking(ctx.layer_keys(), order@),
            selected@.len() == ctx.selected().len(),
            forall|k: int|
                0 <= k < selected@.len() ==> (#[trigger] selected@[k]) == ctx.selected()[k] && selected@[k]
                    < ctx.pdk.layers@.len(),
            out@.len() == i,
            forall|k: int|
                0 <= k < i ==> (#[trigger] out@[k]) == ctx.selected()[order@[k] as int] && out@[k]
                    < ctx.pdk.layers@.len(),
        decreases order@.len() - i,
    {
        assert(order@[i as int] < selected@.len());
        out.push(selected[order[i]]);
        i = i + 1;
    }
    out
}

/// The names and descriptions of the layers to work on, by ascending GDS
/// layer: all, or those that the configuration names.
pub fn get_target_layers(ctx: &RunContext) -> (out: Vec<(&str, &PdkLayer)>)
    ensures
        exists|positions: Seq<usize>|
            #[trigger] ctx.is_target_list(positions) && out@.len() == positions.len() && forall|i: int|
                0 <= i < out@.len() ==> (#[trigger] out@[i]).0@ == ctx.pdk.layers@[positions[i] as int].0@ && *out@[i].1
                    == ctx.pdk.layers@[positions[i] as int].1,
{
    let positions = target_positions(ctx);
    let mut out: Vec<(&str, &PdkLayer)> = Vec::new();
    let mut i: usize = 0;
    while i < positions.len()
        invariant
            i <= positions@.len(),
            forall|k: int| 0 <= k < positions@.len() ==> (#[trigger] positions@[k]) < ctx.pdk.layers@.len(),
            out@.len() == i,
            forall|k: int|
                0 <= k < i ==> (#[trigger] out@[k]).0@ == ctx.pdk.layers@[positions@[k] as int].0@ && *out@[k].1
                    == ctx.pdk.layers@[positions@[k] as int].1,
        decreases positions@.len() - i,
    {
        assert(positions@[i as int] < ctx.pdk.layers@.len());
        let l = &ctx.pdk.layers[positions[i]];
        out.push((l.0.as_str(), &l.1));
        i = i + 1;
    }
    out
}

/// The names in the configuration that no layer of the process has.
pub open spec fn unknown_names(ctx: RunContext, names: Seq<Seq<char>>, n: int) -> Seq<Seq<char>>
    decreases n,
{
    if n <= 0 {
        Seq::empty()
    } else if find_layer(ctx.pdk.layers@, names[n - 1], 0) is None {
        unknown_names(ctx, names, n - 1).push(names[n - 1])
    } else {
        unknown_names(ctx, names, n - 1)
    }
}

/// The names in the configuration that no layer of the process has.
pub fn unknown_layers(ctx: &RunContext) -> (out: Vec<String>)
    ensures
        out@.map_values(|s: String| s@) == unknown_names(*ctx, ctx.filter(), ctx.filter().len() as int),
{
    let mut out: Vec<String> = Vec::new();
    let names: Vec<String> = match &ctx.config {
        Some(c) => c.layer_names(),
        None => Vec::new(),
    };
    let ghost filter = ctx.filter();
    assert(names@.map_values(|s: String| s@) =~= filter);
    let mut i: usize = 0;
    assert(out@.map_values(|s: String| s@) =~= Seq::empty());
    while i < names.len()
        invariant
            i <= names@.len(),
            filter == ctx.filter(),
            names@.map_values(|s: String| s@) == filter,
            out@.map_values(|s: String| s@) == unknown_names(*ctx, filter, i as int),
        decreases names@.len() - i,
    {
        assert(filter[i as int] == names@[i as int]@);
        if ctx.pdk.position(names[i].as_str()).is_none() {
            let ghost before = out@;
            out.push(copy_name(names[i].as_str()));
            assert(out@.map_values(|s: String| s@) =~= before.map_values(|s: String| s@).push(filter[i as int]));
        }
        i = i + 1;
    }
    out
}

/// Does a file of this extension hold gzip data?
pub fn is_gzip(extension: Option<&str>) -> (b: bool)
    ensures
        b == (extension matches Some(e) && e@ == "gz"@),
{
    match extension {
        Some(e) => same_name(e, "gz"),
        None => false,
    }
}

proof fn named_layers_found(ctx: RunContext, names: Seq<Seq<char>>, n: int, q: int)
    requires
        0 <= n <= names.len(),
        0 <= q < ctx.named_layers(names, n).len(),
    ensures
        ({
            let k = ctx.named_layers(names, n)[q];
            &&& 0 <= k < ctx.pdk.layers@.len()
            &&& exists|i: int| 0 <= i < n && #[trigger] names[i] == ctx.pdk.layers@[k].0@
        }),
    decreases n,
{
    if n > 0 {
        let before = ctx.named_layers(names, n - 1);
        find_layer_finds(ctx.pdk.layers@, names[n - 1], 0);
        if q < before.len() {
            named_layers_found(ctx, names, n - 1, q);
        }
    }
}

proof fn named_layers_differ(ctx: RunContext, names: Seq<Seq<char>>, n: int, p: int, q: int)
    requires
        names.no_duplicates(),
        0 <= n <= names.len(),
        0 <= p < q < ctx.named_layers(names, n).len(),
    ensures
        ctx.named_layers(names, n)[p] != ctx.named_layers(names, n)[q],
    decreases n,
{
    let before = ctx.named_layers(names, n - 1);
    if q < before.len() {
        named_layers_differ(ctx, names, n - 1, p, q);
    } else {
        find_layer_finds(ctx.pdk.layers@, names[n - 1], 0);
        named_layers_found(ctx, names, n - 1, p);
    }
}

/// No layer is worked on twice: if the configuration names no layer twice, the
/// target list holds each position once, and with a table in which names occur
/// once, each name once.
pub proof fn targets_are_distinct(ctx: RunContext, out: Seq<usize>, i: int, j: int)
    requires
        ctx.is_target_list(out),
        ctx.filter().no_duplicates(),
        0 <= i < j < out.len(),
    ensures
        out[i] != out[j],
        out[i] < ctx.pdk.layers@.len(),
        out[j] < ctx.pdk.layers@.len(),
        ctx.pdk.names_distinct() ==> ctx.pdk.layers@[out[i] as int].0@ != ctx.pdk.layers@[out[j] as int].0@,
{
    let order = choose|order: Seq<usize>|
        #![trigger is_ranking(ctx.layer_keys(), order)]
        is_ranking(ctx.layer_keys(), order) && out.len() == order.len() && forall|i: int|
            0 <= i < out.len() ==> (#[trigger] out[i]) == ctx.selected()[order[i] as int];
    let (a, b) = (order[i] as int, order[j] as int);
    assert(crate::order::ranks_before(ctx.layer_keys(), a, b));
    let names = ctx.filter();
    let n = names.len() as int;
    assert(out[i] == ctx.selected()[a] && out[j] == ctx.selected()[b]);
    if names.len() > 0 {
        named_layers_found(ctx, names, n, a);
        named_layers_found(ctx, names, n, b);
        if a < b {
            named_layers_differ(ctx, names, n, a, b);
        } else {
            named_layers_differ(ctx, names, n, b, a);
        }
    }
    if ctx.pdk.names_distinct() {
        if out[i] < out[j] {
            assert(ctx.pdk.layers@[out[i] as int].0@ != ctx.pdk.layers@[out[j] as int].0@);
        } else {
            assert(ctx.pdk.layers@[out[j] as int].0@ != ctx.pdk.layers@[out[i] as int].0@);
        }
    }
}

/// Two lists of the targets of a run hold the same positions.
pub proof fn targets_hold_alike(ctx: RunContext, a: Seq<usize>, b: Seq<usize>, i: int) -> (k: int)
    requires
        ctx.is_target_list(a),
        ctx.is_target_list(b),
        0 <= i < a.len(),
    ensures
        0 <= k < b.len(),
        b[k] == a[i],
{
    let keys = ctx.layer_keys();
    let x = choose|order: Seq<usize>|
        #![trigger is_ranking(keys, order)]
        is_ranking(keys, order) && a.len() == order.len() && forall|i: int|
            0 <= i < a.len() ==> (#[trigger] a[i]) == ctx.selected()[order[i] as int];
    let y = choose|order: Seq<usize>|
        #![trigger is_ranking(keys, order)]
        is_ranking(keys, order) && b.len() == order.len() && forall|i: int|
            0 <= i < b.len() ==> (#[trigger] b[i]) == ctx.selected()[order[i] as int];
    assert(0 <= x[i] < keys.len());
    assert(y.contains(x[i] as int as usize));
    let k = choose|k: int| 0 <= k < y.len() && y[k] == x[i];
    assert(b[k] == a[i]);
    k
}

/// The layers to work on come by ascending GDS layer, so that COMP and Activ come
/// before what is laid over them.
pub proof fn targets_ascend(ctx: RunContext, out: Seq<usize>, i: int, j: int)
    requires
        ctx.is_target_list(out),
        0 <= i <= j < out.len(),
    ensures
        ctx.pdk.layers@[out[i] as int].1.gds_layer <= ctx.pdk.layers@[out[j] as int].1.gds_layer,
{
    let keys = ctx.layer_keys();
    let order = choose|order: Seq<usize>|
        #![trigger is_ranking(keys, order)]
        is_ranking(keys, order) && out.len() == order.len() && forall|i: int|
            0 <= i < out.len() ==> (#[trigger] out[i]) == ctx.selected()[order[i] as int];
    assert(out[i] == ctx.selected()[order[i] as int]);
    assert(out[j] == ctx.selected()[order[j] as int]);
    if i < j {
        assert(crate::order::ranks_before(keys, order[i] as int, order[j] as int));
    }
    assert(0 <= order[i] < keys.len() && 0 <= order[j] < keys.len());
    assert(ctx.selected().len() == keys.len());
    positions_fit(ctx, order[i] as int);
    positions_fit(ctx, order[j] as int);
}

proof fn positions_fit(ctx: RunContext, q: int)
    requires
        0 <= q < ctx.selected().len(),
    ensures
        0 <= ctx.selected()[q] < ctx.pdk.layers@.len(),
        ctx.pdk.layers@.len() <= usize::MAX,
{
    assert(ctx.pdk.layers@.len() == ctx.pdk.layers.len());
    if ctx.filter().len() > 0 {
        named_layers_found(ctx, ctx.filter(), ctx.filter().len() as int, q);
    }
}

/// The configuration has an entry for the layer.
pub open spec fn is_named(ctx: RunContext, name: Seq<char>) -> bool {
    ctx.config matches Some(c) && c.layers matches Some(v) && exists|e: int|
        0 <= e < v@.len() && (#[trigger] v@[e]).0@ == name
}

/// The configuration has no entry.
pub open spec fn has_no_entries(ctx: RunContext) -> bool {
    ctx.config matches Some(c) ==> c.layers matches Some(v) ==> v@.len() == 0
}

proof fn named_layer_is_selected(ctx: RunContext, names: Seq<Seq<char>>, n: int, i: int, k: int)
    requires
        0 <= i < n <= names.len(),
        0 <= k < ctx.pdk.layers@.len(),
        ctx.pdk.layers@[k].0@ == names[i],
        ctx.pdk.names_distinct(),
    ensures
        ctx.named_layers(names, n).contains(k),
    decreases n,
{
    let now = ctx.named_layers(names, n);
    let before = ctx.named_layers(names, n - 1);
    if i == n - 1 {
        find_layer_finds(ctx.pdk.layers@, names[i], 0);
        let p = find_layer(ctx.pdk.layers@, names[i], 0)->0;
        assert(p == k) by {
            if p < k {
                assert(ctx.pdk.layers@[p].0@ != ctx.pdk.layers@[k].0@);
            } else if k < p {
                assert(ctx.pdk.layers@[k].0@ != ctx.pdk.layers@[p].0@);
            }
        }
        assert(now[before.len() as int] == k);
    } else {
        named_layer_is_selected(ctx, names, n - 1, i, k);
        let b = choose|b: int| 0 <= b < before.len() && before[b] == k;
        assert(now[b] == k);
    }
}

proof fn named_layers_are_few(ctx: RunContext, names: Seq<Seq<char>>, n: int)
    requires
        0 <= n,
    ensures
        ctx.named_layers(names, n).len() <= n,
    decreases n,
{
    if n > 0 {
        named_layers_are_few(ctx, names, n - 1);
    }
}

/// A layer is worked on exactly if the configuration has an entry for it, or has
/// no entries at all.
pub proof fn targets_are_the_named_layers(ctx: RunContext, out: Seq<usize>, k: int)
    requires
        ctx.is_target_list(out),
        ctx.pdk.names_distinct(),
        0 <= k < ctx.pdk.layers@.len(),
    ensures
        out.contains(k as usize) <==> has_no_entries(ctx) || is_named(ctx, ctx.pdk.layers@[k].0@),
{
    let keys = ctx.layer_keys();
    let name = ctx.pdk.layers@[k].0@;
    let order = choose|order: Seq<usize>|
        #![trigger is_ranking(keys, order)]
        is_ranking(keys, order) && out.len() == order.len() && forall|i: int|
            0 <= i < out.len() ==> (#[trigger] out[i]) == ctx.selected()[order[i] as int];
    let selected = ctx.selected();
    let filter = ctx.filter();
    assert(ctx.pdk.layers@.len() == ctx.pdk.layers.len());
    assert(has_no_entries(ctx) == (filter.len() == 0));
    if filter.len() == 0 {
        assert(selected[k] == k);
    } else {
        let v = ctx.config->0.layers->0@;
        if is_named(ctx, name) {
            let e = choose|e: int| 0 <= e < v.len() && (#[trigger] v[e]).0@ == name;
            assert(filter[e] == name);
            named_layer_is_selected(ctx, filter, filter.len() as int, e, k);
        }
        if out.contains(k as usize) {
            let i = choose|i: int| 0 <= i < out.len() && out[i] == k as usize;
            assert(out[i] == selected[order[i] as int]);
            assert(0 <= order[i] < keys.len());
            named_layers_found(ctx, filter, filter.len() as int, order[i] as int);
            let e = choose|e: int| 0 <= e < filter.len() && #[trigger] filter[e] == ctx.pdk.layers@[k].0@;
            assert(v[e].0@ == name);
        }
    }
    if has_no_entries(ctx) || is_named(ctx, name) {
        assert(selected.contains(k));
        let q = choose|q: int| 0 <= q < selected.len() && selected[q] == k;
        assert(0 <= q < keys.len());
        positions_fit(ctx, q);
        if filter.len() > 0 {
            named_layers_are_few(ctx, filter, filter.len() as int);
            let v = ctx.config->0.layers->0;
            assert(v@.len() == v.len());
        }
        assert(order.contains(q as usize));
        let i = choose|i: int| 0 <= i < order.len() && order[i] == q as usize;
        assert(out[i] == selected[order[i] as int]);
    }
}

/// A name of the configuration is reported exactly if no layer has it.
pub proof fn unknown_names_are_reported(ctx: RunContext, names: Seq<Seq<char>>, n: int, name: Seq<char>)
    requires
        0 <= n <= names.len(),
    ensures
        unknown_names(ctx, names, n).contains(name) <==> !ctx.pdk.has_layer(name) && exists|i: int|
            0 <= i < n && #[trigger] names[i] == name,
    decreases n,
{
    if n > 0 {
        unknown_names_are_reported(ctx, names, n - 1, name);
        let last = names[n - 1];
        find_layer_finds(ctx.pdk.layers@, last, 0);
        let before = unknown_names(ctx, names, n - 1);
        let now = unknown_names(ctx, names, n);
        if let Some(k) = find_layer(ctx.pdk.layers@, last, 0) {
            assert(ctx.pdk.layers@[k].0@ == last);
            assert(ctx.pdk.has_layer(last));
        } else {
            assert(!ctx.pdk.has_layer(last));
            assert(now[before.len() as int] == last);
            if before.contains(name) {
                let b = choose|b: int| 0 <= b < before.len() && before[b] == name;
                assert(now[b] == name);
            }
            if now.contains(name) {
                let b = choose|b: int| 0 <= b < now.len() && now[b] == name;
                if b < before.len() {
                    assert(before[b] == name);
                } else {
                    assert(names[n - 1] == name);
                }
            }
        }
    }
}

/// The layers of the processes: sg13g2 has five thin and two thick metals, sg13cmos5l
/// four and one; the gf180mcu processes have COMP, Poly2 and as many metals as their
/// variant.
pub proof fn processes_have_their_layers()
    ensures
        process_layers("ihp-sg13g2"@) == seq![
            "Activ"@,
            "GatPoly"@,
            "Metal1"@,
            "Metal2"@,
            "Metal3"@,
            "Metal4"@,
            "Metal5"@,
            "TopMetal1"@,
            "TopMetal2"@,
        ],
        process_layers("ihp-sg13cmos5l"@) == seq![
            "Activ"@,
            "GatPoly"@,
            "Metal1"@,
            "Metal2"@,
            "Metal3"@,
            "Metal4"@,
            "TopMetal1"@,
        ],
        process_layers("gf180mcuA"@) == seq!["COMP"@, "Poly2"@, "Metal1"@, "Metal2"@, "Metal3"@],
        process_layers("gf180mcuB"@) == seq!["COMP"@, "Poly2"@, "Metal1"@, "Metal2"@, "Metal3"@, "Metal4"@],
        process_layers("gf180mcuC"@) == seq!["COMP"@, "Poly2"@, "Metal1"@, "Metal2"@, "Metal3"@, "Metal4"@, "Metal5"@],
        process_layers("gf180mcuD"@) == process_layers("gf180mcuC"@),
{
    reveal_strlit("ihp-sg13g2");
    reveal_strlit("ihp-sg13cmos5l");
    reveal_strlit("gf180mcuA");
    reveal_strlit("gf180mcuB");
    reveal_strlit("gf180mcuC");
    reveal_strlit("gf180mcuD");
    assert("ihp-sg13g2"@.len() == 10 && "ihp-sg13cmos5l"@.len() == 14);
    assert("gf180mcuA"@.len() == 9 && "gf180mcuB"@.len() == 9 && "gf180mcuC"@.len() == 9 && "gf180mcuD"@.len() == 9);
    assert("gf180mcuA"@[8] == 'A' && "gf180mcuB"@[8] == 'B' && "gf180mcuC"@[8] == 'C' && "gf180mcuD"@[8] == 'D');
    assert(gf_layers(3) =~= seq!["COMP"@, "Poly2"@, "Metal1"@, "Metal2"@, "Metal3"@]);
    assert(gf_layers(4) =~= seq!["COMP"@, "Poly2"@, "Metal1"@, "Metal2"@, "Metal3"@, "Metal4"@]);
    assert(gf_layers(5) =~= seq!["COMP"@, "Poly2"@, "Metal1"@, "Metal2"@, "Metal3"@, "Metal4"@, "Metal5"@]);
}

/// Inspection shapes are told apart by their datatypes, from each other and from
/// those of the gf180mcu stacks.
pub proof fn inspection_shapes_are_told_apart()
    ensures
        DEBUG_KEEPOUT_DT != DEBUG_MERGED_DT,
        DEBUG_KEEPOUT_DT == 250 && DEBUG_MERGED_DT == 251,
{
}

} // verus!
