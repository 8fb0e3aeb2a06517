//! Configuration documents and their bounded-depth merge.

use vstd::prelude::*;
use crate::fingerprint::fingerprint;
use crate::trust_db::{file_trusted, is_file_trusted, TrustDb};

verus! {

/// A configuration document or a value inside one. A table holds its entries
/// in order; a float is held by its bits.
#[derive(Debug, PartialEq, Eq)]
pub enum ConfigValue {
    String(String),
    Integer(i64),
    Float { bits: u64 },
    Boolean(bool),
    Datetime(String),
    Array(Vec<ConfigValue>),
    Table(Vec<(String, ConfigValue)>),
}

/// The mathematical value of a [`ConfigValue`].
pub enum Doc {
    String(Seq<char>),
    Integer(int),
    Float { bits: int },
    Boolean(bool),
    Datetime(Seq<char>),
    Array(Seq<Doc>),
    Table(Seq<(Seq<char>, Doc)>),
}

#[verifier::external_type_specification]
#[verifier::external_body]
pub struct ExTomlValue(toml::Value);

#[verifier::external_type_specification]
#[verifier::external_body]
pub struct ExTomlError(toml::de::Error);

/// The document that a TOML text holds, as `toml::from_str` reads it; `None`
/// where the text is not valid TOML.
pub uninterp spec fn toml_document(text: Seq<char>) -> Option<Doc>;

/// The document that a parsed TOML value holds.
pub uninterp spec fn toml_value_doc(value: toml::Value) -> Doc;

/// Calls `toml::from_str` for a `toml::Value`. Trusted: whether the text
/// parses, and the document that comes out, depend on the text alone.
#[verifier::external_body]
fn toml_from_str(text: &str) -> (parsed: Result<toml::Value, toml::de::Error>)
    ensures
        match parsed {
            Ok(value) => toml_document(text@) == Some(toml_value_doc(value)),
            Err(_) => toml_document(text@).is_none(),
        },
{
    toml::from_str::<toml::Value>(text)
}

/// Takes a `toml::Value` apart, variant by variant, into a [`ConfigValue`]. Trusted:
/// the result holds what the value held; a float goes by its bits and a
/// datetime by its text.
#[verifier::external_body]
fn value_from_toml(value: toml::Value) -> (converted: ConfigValue)
    ensures
        converted@ == toml_value_doc(value),
{
    match value {
        toml::Value::String(s) => ConfigValue::String(s),
        toml::Value::Integer(i) => ConfigValue::Integer(i),
        toml::Value::Float(x) => ConfigValue::Float { bits: x.to_bits() },
        toml::Value::Boolean(b) => ConfigValue::Boolean(b),
        toml::Value::Datetime(d) => ConfigValue::Datetime(d.to_string()),
        toml::Value::Array(a) => ConfigValue::Array(a.into_iter().map(value_from_toml).collect()),
        toml::Value::Table(t) => ConfigValue::Table(
            t.into_iter().map(|(k, v)| (k, value_from_toml(v))).collect(),
        ),
    }
}

/// The mathematical value of `value`.
pub open spec fn doc_view(value: ConfigValue) -> Doc
    decreases value,
{
    match value {
        ConfigValue::String(s) => Doc::String(s@),
        ConfigValue::Integer(i) => Doc::Integer(i as int),
        ConfigValue::Float { bits } => Doc::Float { bits: bits as int },
        ConfigValue::Boolean(b) => Doc::Boolean(b),
        ConfigValue::Datetime(s) => Doc::Datetime(s@),
        ConfigValue::Array(items) => Doc::Array(
            Seq::new(
                items@.len(),
                |i: int|
                    if 0 <= i < items@.len() {
                        doc_view(items@[i])
                    } else {
                        Doc::Boolean(false)
                    },
            ),
        ),
        ConfigValue::Table(entries) => Doc::Table(
            Seq::new(
                entries@.len(),
                |i: int|
                    if 0 <= i < entries@.len() {
                        (entries@[i].0@, doc_view(entries@[i].1))
                    } else {
                        (Seq::empty(), Doc::Boolean(false))
                    },
            ),
        ),
    }
}

impl View for ConfigValue {
    type V = Doc;

    open spec fn view(&self) -> Doc {
        doc_view(*self)
    }
}

/// How many levels of nested tables a merge descends into.
pub const MERGE_DEPTH: usize = 3;

/// The entries of a table as mathematical values.
pub open spec fn entries_view(entries: Seq<(String, ConfigValue)>) -> Seq<(Seq<char>, Doc)> {
    Seq::new(entries.len(), |i: int| (entries[i].0@, entries[i].1@))
}

/// The items of an array as mathematical values.
pub open spec fn items_view(items: Seq<ConfigValue>) -> Seq<Doc> {
    Seq::new(items.len(), |i: int| items[i]@)
}

/// The view of an optional document.
pub open spec fn doc_of(value: Option<ConfigValue>) -> Option<Doc> {
    match value {
        Some(v) => Some(v@),
        None => None,
    }
}

/// Entry `i` is the first entry of `entries` under `key`.
pub open spec fn first_at(entries: Seq<(Seq<char>, Doc)>, key: Seq<char>, i: int) -> bool {
    &&& 0 <= i < entries.len()
    &&& entries[i].0 == key
    &&& forall|j: int| 0 <= j < i ==> (#[trigger] entries[j]).0 != key
}

/// The position of the first entry under `key`.
pub open spec fn index_of(entries: Seq<(Seq<char>, Doc)>, key: Seq<char>) -> Option<int> {
    if exists|i: int| first_at(entries, key, i) {
        Some(choose|i: int| first_at(entries, key, i))
    } else {
        None
    }
}

/// The value that a table holds under `key`.
pub open spec fn field(entries: Seq<(Seq<char>, Doc)>, key: Seq<char>) -> Option<Doc> {
    match index_of(entries, key) {
        Some(i) => Some(entries[i].1),
        None => None,
    }
}

/// `over` laid onto `base`. While `depth` is positive and both are tables, the
/// tables are merged entry by entry, one level deeper with one less depth; in
/// every other case `over` replaces `base` whole.
pub open spec fn merged_doc(base: Doc, over: Doc, depth: nat) -> Doc
    decreases depth, 2nat, 0nat,
{
    if depth == 0 {
        over
    } else {
        match (base, over) {
            (Doc::Table(b), Doc::Table(o)) => Doc::Table(merged_entries(b, o, depth)),
            _ => over,
        }
    }
}

/// The entries of `over` laid onto the table `base` one after the other.
pub open spec fn merged_entries(
    base: Seq<(Seq<char>, Doc)>,
    over: Seq<(Seq<char>, Doc)>,
    depth: nat,
) -> Seq<(Seq<char>, Doc)>
    decreases depth, 1nat, over.len(),
{
    if depth == 0 || over.len() == 0 {
        base
    } else {
        merged_entries(with_entry(base, over[0].0, over[0].1, depth), over.drop_first(), depth)
    }
}

/// One entry laid onto the table `base`: merged into the entry that `base`
/// holds under the same key, in its place, or appended where there is none.
pub open spec fn with_entry(
    base: Seq<(Seq<char>, Doc)>,
    key: Seq<char>,
    value: Doc,
    depth: nat,
) -> Seq<(Seq<char>, Doc)>
    decreases depth, 0nat, 0nat,
{
    if depth == 0 {
        base
    } else {
        match index_of(base, key) {
            Some(i) => base.update(i, (key, merged_doc(base[i].1, value, (depth - 1) as nat))),
            None => base.push((key, value)),
        }
    }
}

/// `layer`, where there is one, merged onto `base`.
pub open spec fn overlaid(base: Doc, layer: Option<Doc>) -> Doc {
    match layer {
        Some(l) => merged_doc(base, l, MERGE_DEPTH as nat),
        None => base,
    }
}

/// The configuration in effect: the baseline, then the global document, then,
/// only with `use_local`, the workspace-local one.
pub open spec fn effective_config(
    use_local: bool,
    baseline: Doc,
    global: Option<Doc>,
    local: Option<Doc>,
) -> Doc {
    let with_global = overlaid(baseline, global);
    if use_local {
        overlaid(with_global, local)
    } else {
        with_global
    }
}

/// The first entry under a key is the one that `index_of` gives.
pub proof fn lemma_index_found(entries: Seq<(Seq<char>, Doc)>, key: Seq<char>, i: int)
    requires
        first_at(entries, key, i),
    ensures
        index_of(entries, key) == Some(i),
{
    let j = choose|j: int| first_at(entries, key, j);
    assert(first_at(entries, key, j));
    if j < i {
        assert(entries[j].0 != key);
    } else if i < j {
        assert(entries[i].0 != key);
    }
}

/// The view of a table is the view of its entries.
pub proof fn lemma_table_view(entries: Vec<(String, ConfigValue)>)
    ensures
        (ConfigValue::Table(entries))@ == Doc::Table(entries_view(entries@)),
{
    let table = ConfigValue::Table(entries);
    assert(table@ is Table);
    let viewed = table@->Table_0;
    assert(viewed.len() == entries@.len());
    assert forall|i: int| 0 <= i < viewed.len() implies viewed[i] == entries_view(entries@)[i] by {}
    assert(viewed =~= entries_view(entries@));
}

/// The view of an array is the views of its items.
pub proof fn lemma_array_view(items: Vec<ConfigValue>)
    ensures
        (ConfigValue::Array(items))@ == Doc::Array(items_view(items@)),
{
    let array = ConfigValue::Array(items);
    assert(array@ is Array);
    let viewed = array@->Array_0;
    assert(viewed.len() == items@.len());
    assert forall|i: int| 0 <= i < viewed.len() implies viewed[i] == items_view(items@)[i] by {}
    assert(viewed =~= items_view(items@));
}

pub(crate) fn position(entries: &Vec<(String, ConfigValue)>, key: &String) -> (at: Option<usize>)
    ensures
        match at {
            Some(i) => i < entries@.len() && index_of(entries_view(entries@), key@) == Some(
                i as int,
            ),
            None => index_of(entries_view(entries@), key@).is_none(),
        },
{
    let mut i: usize = 0;
    while i < entries.len()
        invariant
            i <= entries@.len(),
            forall|j: int| 0 <= j < i ==> (#[trigger] entries_view(entries@)[j]).0 != key@,
        decreases entries@.len() - i,
    {
        if entries[i].0 == *key {
            proof {
                lemma_index_found(entries_view(entries@), key@, i as int);
            }
            return Some(i);
        }
        i += 1;
    }
    None
}

/// Merges `right` onto `left`, descending through at most `merge_depth` levels
/// of tables. Arrays and scalars of `right` replace what `left` holds.
pub fn merge_toml_values(left: ConfigValue, right: ConfigValue, merge_depth: usize) -> (merged: ConfigValue)
    ensures
        merged@ == merged_doc(left@, right@, merge_depth as nat),
    decreases merge_depth, 1nat,
{
    if merge_depth == 0 {
        return right;
    }
    match (left, right) {
        (ConfigValue::Table(base), ConfigValue::Table(over)) => {
            proof {
                lemma_table_view(base);
                lemma_table_view(over);
            }
            let entries = merge_tables(base, over, merge_depth);
            proof {
                lemma_table_view(entries);
            }
            ConfigValue::Table(entries)
        },
        (_, over) => over,
    }
}

fn merge_tables(base: Vec<(String, ConfigValue)>, over: Vec<(String, ConfigValue)>, depth: usize) -> (merged:
    Vec<(String, ConfigValue)>)
    requires
        depth > 0,
    ensures
        entries_view(merged@) == merged_entries(
            entries_view(base@),
            entries_view(over@),
            depth as nat,
        ),
    decreases depth, 0nat,
{
    let ghost goal = merged_entries(entries_view(base@), entries_view(over@), depth as nat);
    let mut merged = base;
    let mut rest = over;
    while rest.len() > 0
        invariant
            depth > 0,
            merged_entries(entries_view(merged@), entries_view(rest@), depth as nat) == goal,
        decreases rest@.len(),
    {
        let ghost before = entries_view(merged@);
        let ghost pending = entries_view(rest@);
        let (key, value) = rest.remove(0);
        assert(entries_view(rest@) =~= pending.drop_first());
        assert(pending[0] == (key@, value@));
        match position(&merged, &key) {
            Some(i) => {
                let (_, held) = merged.remove(i);
                let combined = merge_toml_values(held, value, depth - 1);
                merged.insert(i, (key, combined));
                assert(entries_view(merged@) =~= before.update(
                    i as int,
                    (key@, merged_doc(before[i as int].1, value@, (depth - 1) as nat)),
                ));
            },
            None => {
                merged.push((key, value));
                assert(entries_view(merged@) =~= before.push((key@, value@)));
            },
        }
        assert(entries_view(merged@) == with_entry(before, key@, value@, depth as nat));
    }
    merged
}

/// The configuration in effect, from documents that were already parsed:
/// `global` merged onto `baseline` and, only with `use_local`, `local` merged
/// onto that. A layer that is `None` is skipped.
pub fn layered_config(
    use_local: bool,
    baseline: ConfigValue,
    global: Option<ConfigValue>,
    local: Option<ConfigValue>,
) -> (config: ConfigValue)
    ensures
        config@ == effective_config(use_local, baseline@, doc_of(global), doc_of(local)),
{
    let with_global = match global {
        Some(layer) => merge_toml_values(baseline, layer, MERGE_DEPTH),
        None => baseline,
    };
    if use_local {
        match local {
            Some(layer) => merge_toml_values(with_global, layer, MERGE_DEPTH),
            None => with_global,
        }
    } else {
        with_global
    }
}

/// The document that a layer's text holds; `None` where there is no text or
/// where the text does not parse.
pub open spec fn parsed_layer(text: Option<&str>) -> Option<Doc> {
    match text {
        Some(t) => toml_document(t@),
        None => None,
    }
}

/// Parses a configuration document; `None` where the text is not valid.
pub fn parse_config(text: &str) -> (parsed: Option<ConfigValue>)
    ensures
        doc_of(parsed) == toml_document(text@),
{
    match toml_from_str(text) {
        Ok(document) => Some(value_from_toml(document)),
        Err(_) => None,
    }
}

/// The configuration in effect, from the text of each layer: the global
/// document merged onto `baseline` and, only with `use_local`, the
/// workspace-local one merged onto that. A layer whose file could not be read
/// is passed as `None`; such a layer, and one that does not parse, is skipped
/// without an error.
pub fn user_lang_config(
    use_local: bool,
    baseline: ConfigValue,
    global: Option<&str>,
    local: Option<&str>,
) -> (config: ConfigValue)
    ensures
        config@ == effective_config(
            use_local,
            baseline@,
            parsed_layer(global),
            parsed_layer(local),
        ),
{
    let global_layer = match global {
        Some(text) => parse_config(text),
        None => None,
    };
    let local_layer = if use_local {
        match local {
            Some(text) => parse_config(text),
            None => None,
        }
    } else {
        None
    };
    layered_config(use_local, baseline, global_layer, local_layer)
}

/// Whether the workspace's local configuration file is trusted. `contents` is
/// what the file at `path` holds, `None` where no such file exists: then the
/// answer is `false`. Where it exists, the answer is that of
/// `is_file_trusted`.
pub fn is_local_lang_config_trusted(db: &TrustDb, path: Option<&str>, contents: Option<&[u8]>) -> (trusted:
    bool)
    requires
        db.wf(),
    ensures
        trusted == match (path, contents) {
            (Some(p), Some(c)) => file_trusted(db@, p@, fingerprint(p@, c@)),
            _ => false,
        },
{
    match contents {
        Some(c) => is_file_trusted(db, path, c),
        None => false,
    }
}

/// Without `use_local` the workspace-local document has no part in the
/// configuration in effect.
pub proof fn law_local_ignored_unless_used(
    baseline: Doc,
    global: Option<Doc>,
    local: Option<Doc>,
    other_local: Option<Doc>,
)
    ensures
        effective_config(false, baseline, global, local) == effective_config(
            false,
            baseline,
            global,
            other_local,
        ),
        effective_config(false, baseline, global, local) == overlaid(baseline, global),
{
}

/// Unless both sides are tables and depth is left, the overlay replaces the
/// base whole: arrays are never combined element by element.
pub proof fn law_overlay_replaces(base: Doc, over: Doc, depth: nat)
    requires
        depth == 0 || !(base is Table) || !(over is Table),
    ensures
        merged_doc(base, over, depth) == over,
{
}

} // verus!
