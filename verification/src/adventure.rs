//! An adventure: the root of a game's resource graph.
//!
//! One adventure file names the rule modules and unit catalogues that the
//! adventure allows, and the process, map and dialogue files of each chapter.
use vstd::prelude::*;
use crate::data_format::{
    first_named, lookup, missing_attribute, missing_child, named, node_view, nodes_view, parse, parse_wml, Node, WmlNode,
};
use crate::text::str_eq;

verus! {

#[derive(Clone, Debug, PartialEq, Eq)]
pub struct AdventureRules {
    /// Lua module of the whole game's rules: turns, movement, recruiting.
    pub game: String,
    /// Lua module that resolves a single fight.
    pub combat: String,
}

#[derive(Clone, Debug, PartialEq, Eq)]
pub struct AdventureScenario {
    /// The chapter's process: sides, goals, events and units.
    pub process: String,
    /// The chapter's map, which lists the tile definitions it may use.
    pub map: String,
    /// The dialogue lines the process refers to.
    pub dialogs: String,
}

#[derive(Clone, Debug, PartialEq, Eq)]
pub struct Adventure {
    pub id: String,
    pub name: String,
    pub description: String,
    /// The catalogues that together list every unit type of the adventure.
    pub unit_catalogs: Vec<String>,
    pub rules: AdventureRules,
    pub scenarios: Vec<AdventureScenario>,
}

/// An adventure as values.
pub struct AdventureModel {
    pub id: Seq<char>,
    pub name: Seq<char>,
    pub description: Seq<char>,
    pub unit_catalogs: Seq<Seq<char>>,
    pub game: Seq<char>,
    pub combat: Seq<char>,
    /// Process, map and dialogues of each chapter.
    pub scenarios: Seq<(Seq<char>, Seq<char>, Seq<char>)>,
}

pub open spec fn attr(n: WmlNode, key: Seq<char>) -> Seq<char> {
    lookup(n.attributes, key).unwrap()
}

pub open spec fn has_attr(n: WmlNode, key: Seq<char>) -> bool {
    lookup(n.attributes, key) is Some
}

pub open spec fn all_have(nodes: Seq<WmlNode>, key: Seq<char>) -> bool {
    forall|i: int| 0 <= i < nodes.len() ==> #[trigger] has_attr(nodes[i], key)
}

pub open spec fn scenario_model(n: WmlNode) -> (Seq<char>, Seq<char>, Seq<char>) {
    (attr(n, "process"@), attr(n, "map"@), attr(n, "dialogs"@))
}

/// The first unit catalogue without a `source`, as an error.
pub open spec fn units_error(units: Seq<WmlNode>) -> Option<Seq<char>>
    decreases units.len(),
{
    if units.len() == 0 {
        None
    } else if !has_attr(units[0], "source"@) {
        Some(missing_attribute(units[0].name, "source"@))
    } else {
        units_error(units.drop_first())
    }
}

/// The first chapter without `process`, `map` or `dialogs` (asked in that
/// order), as an error.
pub open spec fn scenarios_error(scenarios: Seq<WmlNode>) -> Option<Seq<char>>
    decreases scenarios.len(),
{
    if scenarios.len() == 0 {
        None
    } else if !has_attr(scenarios[0], "process"@) {
        Some(missing_attribute(scenarios[0].name, "process"@))
    } else if !has_attr(scenarios[0], "map"@) {
        Some(missing_attribute(scenarios[0].name, "map"@))
    } else if !has_attr(scenarios[0], "dialogs"@) {
        Some(missing_attribute(scenarios[0].name, "dialogs"@))
    } else {
        scenarios_error(scenarios.drop_first())
    }
}

/// The adventure that a document's top-level nodes describe, or the first
/// thing wrong with them: exactly one `[adventure]`; a `[rules]` child; at
/// least one `[units]`, each with `source`; at least one `[scenario]`, each
/// with `process`, `map` and `dialogs`; then `id`, `name` and `description`
/// of the adventure and `game` and `combat` of its rules.
pub open spec fn adventure_result(roots: Seq<WmlNode>) -> Result<AdventureModel, Seq<char>> {
    if roots.len() != 1 || roots[0].name != "adventure"@ {
        Err("file must contain exactly one [adventure]"@)
    } else {
        let root = roots[0];
        let units = named(root.children, "units"@);
        let scenarios = named(root.children, "scenario"@);
        match first_named(root.children, "rules"@) {
            None => Err(missing_child(root.name, "rules"@)),
            Some(rules) => if units_error(units) is Some {
                Err(units_error(units).unwrap())
            } else if units.len() == 0 {
                Err("[adventure] must contain at least one [units]"@)
            } else if scenarios_error(scenarios) is Some {
                Err(scenarios_error(scenarios).unwrap())
            } else if scenarios.len() == 0 {
                Err("[adventure] must contain at least one [scenario]"@)
            } else if !has_attr(root, "id"@) {
                Err(missing_attribute(root.name, "id"@))
            } else if !has_attr(root, "name"@) {
                Err(missing_attribute(root.name, "name"@))
            } else if !has_attr(root, "description"@) {
                Err(missing_attribute(root.name, "description"@))
            } else if !has_attr(rules, "game"@) {
                Err(missing_attribute(rules.name, "game"@))
            } else if !has_attr(rules, "combat"@) {
                Err(missing_attribute(rules.name, "combat"@))
            } else {
                Ok(
                    AdventureModel {
                        id: attr(root, "id"@),
                        name: attr(root, "name"@),
                        description: attr(root, "description"@),
                        unit_catalogs: units.map_values(|u: WmlNode| attr(u, "source"@)),
                        game: attr(rules, "game"@),
                        combat: attr(rules, "combat"@),
                        scenarios: scenarios.map_values(|s: WmlNode| scenario_model(s)),
                    },
                )
            },
        }
    }
}

/// What reading an adventure file gives: its adventure, or the first error
/// of the file or of the adventure.
pub open spec fn spec_adventure(source: Seq<char>) -> Result<AdventureModel, Seq<char>> {
    match parse_wml(source) {
        Err(e) => Err(e),
        Ok(roots) => adventure_result(roots),
    }
}

impl Adventure {
    /// The adventure as values.
    pub open spec fn model(&self) -> AdventureModel {
        AdventureModel {
            id: self.id@,
            name: self.name@,
            description: self.description@,
            unit_catalogs: self.unit_catalogs@.map_values(|s: String| s@),
            game: self.rules.game@,
            combat: self.rules.combat@,
            scenarios: self.scenarios@.map_values(
                |s: AdventureScenario| (s.process@, s.map@, s.dialogs@),
            ),
        }
    }

    /// Reads an adventure file.
    #[verifier::loop_isolation(false)]
    pub fn parse(source: &str) -> (result: Result<Adventure, String>)
        ensures
            match result {
                Ok(a) => spec_adventure(source@) == Ok::<AdventureModel, Seq<char>>(a.model()),
                Err(m) => spec_adventure(source@) == Err::<AdventureModel, Seq<char>>(m@),
            },
    {
        let roots = parse(source)?;
        let ghost vroots = nodes_view(roots@);
        if roots.len() != 1 || !str_eq(roots[0].name.as_str(), "adventure") {
            return Err("file must contain exactly one [adventure]".to_owned());
        }
        let root = &roots[0];
        assert(vroots[0] == node_view(*root));
        let rules = root.child("rules")?;
        let units = root.children_named("units");
        let ghost vunits = named(node_view(*root).children, "units"@);
        let mut unit_catalogs: Vec<String> = Vec::new();
        let mut i: usize = 0;
        assert(vunits.skip(0) =~= vunits);
        while i < units.len()
            invariant
                i <= units.len(),
                vunits == units@.map_values(|c: &Node| node_view(*c)),
                forall|j: int| 0 <= j < i ==> #[trigger] has_attr(vunits[j], "source"@),
                units_error(vunits) == units_error(vunits.skip(i as int)),
                unit_catalogs@.map_values(|s: String| s@) == vunits.take(i as int).map_values(
                    |u: WmlNode| attr(u, "source"@),
                ),
            decreases units.len() - i,
        {
            assert(vunits[i as int] == node_view(*units@[i as int]));
            let source = match units[i].attribute("source") {
                Ok(v) => v,
                Err(e) => {
                    assert(!has_attr(vunits[i as int], "source"@));
                    assert(vunits.skip(i as int)[0] == vunits[i as int]);
                    return Err(e);
                },
            };
            let ghost before = unit_catalogs@.map_values(|s: String| s@);
            unit_catalogs.push(source.to_owned());
            assert(unit_catalogs@.map_values(|s: String| s@) =~= before.push(source@));
            assert(vunits.take(i as int + 1) =~= vunits.take(i as int).push(vunits[i as int]));
            assert(vunits.skip(i as int).drop_first() =~= vunits.skip(i as int + 1));
            i = i + 1;
        }
        assert(vunits.take(units.len() as int) =~= vunits);
        if unit_catalogs.len() == 0 {
            return Err("[adventure] must contain at least one [units]".to_owned());
        }
        let chapters = root.children_named("scenario");
        let ghost vscen = named(node_view(*root).children, "scenario"@);
        let mut scenarios: Vec<AdventureScenario> = Vec::new();
        let mut k: usize = 0;
        assert(vscen.skip(0) =~= vscen);
        while k < chapters.len()
            invariant
                k <= chapters.len(),
                vscen == chapters@.map_values(|c: &Node| node_view(*c)),
                forall|j: int| 0 <= j < k ==> #[trigger] has_attr(vscen[j], "process"@),
                forall|j: int| 0 <= j < k ==> #[trigger] has_attr(vscen[j], "map"@),
                forall|j: int| 0 <= j < k ==> #[trigger] has_attr(vscen[j], "dialogs"@),
                scenarios_error(vscen) == scenarios_error(vscen.skip(k as int)),
                scenarios@.map_values(|s: AdventureScenario| (s.process@, s.map@, s.dialogs@))
                    == vscen.take(k as int).map_values(|s: WmlNode| scenario_model(s)),
            decreases chapters.len() - k,
        {
            let chapter = chapters[k];
            assert(vscen[k as int] == node_view(*chapter));
            let process = match chapter.attribute("process") {
                Ok(v) => v,
                Err(e) => {
                    assert(!has_attr(vscen[k as int], "process"@));
                    assert(vscen.skip(k as int)[0] == vscen[k as int]);
                    return Err(e);
                },
            };
            let map = match chapter.attribute("map") {
                Ok(v) => v,
                Err(e) => {
                    assert(!has_attr(vscen[k as int], "map"@));
                    assert(vscen.skip(k as int)[0] == vscen[k as int]);
                    return Err(e);
                },
            };
            let dialogs = match chapter.attribute("dialogs") {
                Ok(v) => v,
                Err(e) => {
                    assert(!has_attr(vscen[k as int], "dialogs"@));
                    assert(vscen.skip(k as int)[0] == vscen[k as int]);
                    return Err(e);
                },
            };
            let ghost before = scenarios@.map_values(
                |s: AdventureScenario| (s.process@, s.map@, s.dialogs@),
            );
            scenarios.push(
                AdventureScenario {
                    process: process.to_owned(),
                    map: map.to_owned(),
                    dialogs: dialogs.to_owned(),
                },
            );
            assert(scenarios@.map_values(|s: AdventureScenario| (s.process@, s.map@, s.dialogs@))
                =~= before.push(scenario_model(vscen[k as int])));
            assert(vscen.take(k as int + 1) =~= vscen.take(k as int).push(vscen[k as int]));
            assert(vscen.skip(k as int).drop_first() =~= vscen.skip(k as int + 1));
            k = k + 1;
        }
        assert(vscen.take(chapters.len() as int) =~= vscen);
        if scenarios.len() == 0 {
            return Err("[adventure] must contain at least one [scenario]".to_owned());
        }
        let id = root.attribute("id")?.to_owned();
        let name = root.attribute("name")?.to_owned();
        let description = root.attribute("description")?.to_owned();
        let game = rules.attribute("game")?.to_owned();
        let combat = rules.attribute("combat")?.to_owned();
        let result = Adventure {
            id,
            name,
            description,
            unit_catalogs,
            rules: AdventureRules { game, combat },
            scenarios,
        };
        proof {
            let vroot = vroots[0];
            assert(vroot == node_view(*root));
            assert(all_have(vunits, "source"@));
            assert(all_have(vscen, "process"@));
            assert(all_have(vscen, "map"@));
            assert(all_have(vscen, "dialogs"@));
            assert(first_named(vroot.children, "rules"@) == Some(node_view(*rules)));
            assert(has_attr(vroot, "id"@));
            assert(has_attr(node_view(*rules), "game"@));
            let m = adventure_result(vroots)->Ok_0;
            assert(result.model().unit_catalogs =~= m.unit_catalogs);
            assert(result.model().scenarios =~= m.scenarios);
        }
        Ok(result)
    }
}

} // verus!
