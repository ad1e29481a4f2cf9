//! Leaf-agnostic structural edits to a config document. Each app builds its own field list and
//! calls [`add_tab`]; this module knows nothing about what the fields mean. The edit goes through
//! `toml_edit`, which keeps comments and formatting outside the new table; the contracts speak of
//! the document's contents (keys, items, and the key order of tables), not of its text.
//!
//! Where the new table goes is decided by [`plan_add_tab`] over an outline of the document: the
//! windows (`[[window]]`) with their titles, their `tab` entry and their groups
//! (`[[window.group]]`) with their names and `tab` entries.
use vstd::prelude::*;
use crate::paths::opt_view;

verus! {

/// `toml_edit::DocumentMut`, a parsed, editable TOML document.
#[verifier::external_type_specification]
#[verifier::external_body]
pub struct ExDocumentMut(toml_edit::DocumentMut);

/// `toml_edit::Table`.
#[verifier::external_type_specification]
#[verifier::external_body]
pub struct ExTable(toml_edit::Table);

/// `toml_edit::Item`.
#[verifier::external_type_specification]
#[verifier::external_body]
pub struct ExItem(toml_edit::Item);

/// `toml_edit::ArrayOfTables`.
#[verifier::external_type_specification]
#[verifier::external_body]
pub struct ExArrayOfTables(toml_edit::ArrayOfTables);

/// `toml_edit::Value`, a field value carried through into the new table.
#[verifier::external_type_specification]
#[verifier::external_body]
pub struct ExValue(toml_edit::Value);

/// `toml_edit::TomlError`, why a document failed to parse.
#[verifier::external_type_specification]
#[verifier::external_body]
pub struct ExTomlError(toml_edit::TomlError);

/// Why a structural edit failed.
#[derive(Debug)]
pub enum EditError {
    /// The config could not be read or written.
    Io(std::io::Error),
    /// The config is not valid TOML.
    Toml(toml_edit::TomlError),
    /// No window has this title.
    WindowNotFound(String),
    /// The window has no group with this name.
    GroupNotFound(String),
    /// The config has a `tab` entry that is not an array of tables.
    MalformedTab,
}

/// What a table's `tab` key holds.
#[derive(Debug, Clone, Copy, PartialEq, Eq, Structural)]
pub enum TabSlot {
    /// No `tab` key.
    Missing,
    /// An array of tables (`[[...tab]]`).
    Tables,
    /// Anything else.
    Other,
}

/// A `[[window.group]]` as an edit sees it: its `name` when that is a string, and its `tab` slot.
#[derive(Debug, Clone)]
pub struct GroupOutline {
    pub name: Option<String>,
    pub tab: TabSlot,
}

/// A `[[window]]` as an edit sees it: its `title` when that is a string, its `tab` slot, and its
/// groups when `group` is an array of tables.
#[derive(Debug, Clone)]
pub struct WindowOutline {
    pub title: Option<String>,
    pub tab: TabSlot,
    pub groups: Option<Vec<GroupOutline>>,
}

/// Where a new tab goes: the index of its window and, for a grouped tab, of its group.
#[derive(Debug, Clone, Copy, PartialEq, Eq, Structural)]
pub struct TabTarget {
    pub window: usize,
    pub group: Option<usize>,
}

/// Whether window `w` is titled `title`.
pub open spec fn titled(w: WindowOutline, title: Seq<char>) -> bool {
    w.title matches Some(t) && t@ == title
}

/// Whether group `g` is named `name`.
pub open spec fn named(g: GroupOutline, name: Seq<char>) -> bool {
    g.name matches Some(n) && n@ == name
}

/// The index of the first window titled `title`, or `ws.len()` when there is none.
pub open spec fn first_titled(ws: Seq<WindowOutline>, title: Seq<char>) -> int
    decreases ws.len(),
{
    if ws.len() == 0 {
        0
    } else if titled(ws[0], title) {
        0
    } else {
        1 + first_titled(ws.drop_first(), title)
    }
}

/// The index of the first group named `name`, or `gs.len()` when there is none.
pub open spec fn first_named(gs: Seq<GroupOutline>, name: Seq<char>) -> int
    decreases gs.len(),
{
    if gs.len() == 0 {
        0
    } else if named(gs[0], name) {
        0
    } else {
        1 + first_named(gs.drop_first(), name)
    }
}

/// The outcome of planning an edit.
pub enum PlanOutcome {
    /// Append the tab here.
    Target(TabTarget),
    /// No window has the title.
    NoWindow,
    /// The window has no group of the name.
    NoGroup,
    /// The `tab` entry that would receive the tab is not an array of tables.
    Malformed,
}

/// Where a tab titled into window `title` (and group `group`) goes in a document whose windows
/// are `windows` (`None` when it has no `[[window]]` array of tables): the first window with the
/// title, then its first group with the name; the receiving `tab` entry must be absent or an
/// array of tables.
pub open spec fn plan_outcome(
    windows: Option<Seq<WindowOutline>>,
    title: Seq<char>,
    group: Option<Seq<char>>,
) -> PlanOutcome {
    match windows {
        None => PlanOutcome::NoWindow,
        Some(ws) => {
            let w = first_titled(ws, title);
            if w >= ws.len() {
                PlanOutcome::NoWindow
            } else {
                match group {
                    None => if ws[w].tab == TabSlot::Other {
                        PlanOutcome::Malformed
                    } else {
                        PlanOutcome::Target(TabTarget { window: w as usize, group: None })
                    },
                    Some(g) => match ws[w].groups {
                        None => PlanOutcome::NoGroup,
                        Some(gv) => {
                            let gs = gv@;
                            let j = first_named(gs, g);
                            if j >= gs.len() {
                                PlanOutcome::NoGroup
                            } else if gs[j].tab == TabSlot::Other {
                                PlanOutcome::Malformed
                            } else {
                                PlanOutcome::Target(
                                    TabTarget { window: w as usize, group: Some(j as usize) },
                                )
                            }
                        },
                    },
                }
            }
        },
    }
}

/// Whether `r` reports outcome `o` for window `title` and group `group`.
pub open spec fn reports(
    r: Result<TabTarget, EditError>,
    o: PlanOutcome,
    title: Seq<char>,
    group: Option<Seq<char>>,
) -> bool {
    match o {
        PlanOutcome::Target(t) => r matches Ok(rt) && rt == t,
        PlanOutcome::NoWindow => r matches Err(EditError::WindowNotFound(s)) && s@ == title,
        PlanOutcome::NoGroup => r matches Err(EditError::GroupNotFound(s)) && group == Some(s@),
        PlanOutcome::Malformed => r matches Err(EditError::MalformedTab),
    }
}

/// The view of an optional window list.
pub open spec fn windows_view(windows: &Option<Vec<WindowOutline>>) -> Option<Seq<WindowOutline>> {
    match windows {
        Some(v) => Some(v@),
        None => None,
    }
}

proof fn lemma_first_titled(ws: Seq<WindowOutline>, title: Seq<char>, i: int)
    requires
        0 <= i <= ws.len(),
        forall|k: int| 0 <= k < i ==> !titled(#[trigger] ws[k], title),
        i == ws.len() || titled(ws[i], title),
    ensures
        first_titled(ws, title) == i,
    decreases i,
{
    if i > 0 {
        let t = ws.drop_first();
        assert forall|k: int| 0 <= k < i - 1 implies !titled(#[trigger] t[k], title) by {
            assert(t[k] == ws[k + 1]);
        }
        assert(!titled(ws[0], title));
        lemma_first_titled(t, title, i - 1);
    }
}

proof fn lemma_first_named(gs: Seq<GroupOutline>, name: Seq<char>, i: int)
    requires
        0 <= i <= gs.len(),
        forall|k: int| 0 <= k < i ==> !named(#[trigger] gs[k], name),
        i == gs.len() || named(gs[i], name),
    ensures
        first_named(gs, name) == i,
    decreases i,
{
    if i > 0 {
        let t = gs.drop_first();
        assert forall|k: int| 0 <= k < i - 1 implies !named(#[trigger] t[k], name) by {
            assert(t[k] == gs[k + 1]);
        }
        assert(!named(gs[0], name));
        lemma_first_named(t, name, i - 1);
    }
}

/// Whether optional string `o` holds exactly `s`.
fn holds(o: &Option<String>, s: &str) -> (r: bool)
    ensures
        r == (o matches Some(x) && x@ == s@),
{
    match o {
        Some(x) => {
            let y = s.to_owned();
            *x == y
        },
        None => false,
    }
}

/// Plan where a tab goes: the first window titled `window_title` (else `WindowNotFound`), then,
/// for a grouped tab, its first group named `group` (else `GroupNotFound`); the receiving `tab`
/// entry must be absent or an array of tables (else `MalformedTab`).
pub fn plan_add_tab(
    windows: &Option<Vec<WindowOutline>>,
    window_title: &str,
    group: Option<&str>,
) -> (r: Result<TabTarget, EditError>)
    ensures
        reports(r, plan_outcome(windows_view(windows), window_title@, opt_view(group)), window_title@, opt_view(group)),
{
    let ws = match windows {
        Some(ws) => ws,
        None => return Err(EditError::WindowNotFound(window_title.to_owned())),
    };
    let mut w: usize = 0;
    while w < ws.len() && !holds(&ws[w].title, window_title)
        invariant
            w <= ws@.len(),
            forall|k: int| 0 <= k < w ==> !titled(#[trigger] ws@[k], window_title@),
        decreases ws@.len() - w,
    {
        w = w + 1;
    }
    proof {
        lemma_first_titled(ws@, window_title@, w as int);
    }
    if w == ws.len() {
        return Err(EditError::WindowNotFound(window_title.to_owned()));
    }
    let win = &ws[w];
    match group {
        None => {
            if win.tab == TabSlot::Other {
                Err(EditError::MalformedTab)
            } else {
                Ok(TabTarget { window: w, group: None })
            }
        },
        Some(g) => {
            let gs = match &win.groups {
                Some(gs) => gs,
                None => return Err(EditError::GroupNotFound(g.to_owned())),
            };
            let mut j: usize = 0;
            while j < gs.len() && !holds(&gs[j].name, g)
                invariant
                    j <= gs@.len(),
                    forall|k: int| 0 <= k < j ==> !named(#[trigger] gs@[k], g@),
                decreases gs@.len() - j,
            {
                j = j + 1;
            }
            proof {
                lemma_first_named(gs@, g@, j as int);
            }
            if j == gs.len() {
                return Err(EditError::GroupNotFound(g.to_owned()));
            }
            if gs[j].tab == TabSlot::Other {
                Err(EditError::MalformedTab)
            } else {
                Ok(TabTarget { window: w, group: Some(j) })
            }
        },
    }
}


/// Whether `toml_edit` accepts `src` as a TOML document (a function of the text alone).
pub uninterp spec fn toml_parses(src: Seq<char>) -> bool;

/// What `toml_edit` parses `src` into: the root table's keys and their items (a function of the
/// text alone).
pub uninterp spec fn toml_parsed(src: Seq<char>) -> Map<Seq<char>, TomlItem>;

/// The text `toml_edit` renders a document as (a function of the document alone).
pub uninterp spec fn toml_text(d: toml_edit::DocumentMut) -> Seq<char>;

/// What a TOML item holds, as the edits read it.
pub enum TomlItem {
    /// No item (`Item::None`).
    Empty,
    /// A string value.
    Text(Seq<char>),
    /// Any other value (number, boolean, date-time, array, inline table).
    OtherValue,
    /// A table: its keys and their items, and its keys in order.
    Table(Map<Seq<char>, TomlItem>, Seq<Seq<char>>),
    /// An array of tables: its entries, in order.
    Tables(Seq<TomlItem>),
}

/// The keys of a document's root table and their items.
pub uninterp spec fn toml_document(d: toml_edit::DocumentMut) -> Map<Seq<char>, TomlItem>;

/// The keys of a table and their items (a key may hold `Empty`).
pub uninterp spec fn toml_table(t: toml_edit::Table) -> Map<Seq<char>, TomlItem>;

/// The keys of a table, in order (a key may hold `Empty`).
pub uninterp spec fn toml_keys(t: toml_edit::Table) -> Seq<Seq<char>>;

/// The entries of an array of tables, in order.
pub uninterp spec fn toml_tables(a: toml_edit::ArrayOfTables) -> Seq<TomlItem>;

/// What an item holds.
pub uninterp spec fn toml_item(i: toml_edit::Item) -> TomlItem;

/// What a value holds: its text when it is a string.
pub uninterp spec fn toml_value(v: toml_edit::Value) -> TomlItem;

/// What table `t` holds as an item: its keys with their items, and its keys in order.
pub open spec fn table_item(t: toml_edit::Table) -> TomlItem {
    TomlItem::Table(toml_table(t), toml_keys(t))
}

/// The keys `ks` after setting key `k`: a key already there keeps its place, a new one goes last.
pub open spec fn keys_with(ks: Seq<Seq<char>>, k: Seq<char>) -> Seq<Seq<char>> {
    if ks.contains(k) {
        ks
    } else {
        ks.push(k)
    }
}

/// The contents of an empty table.
pub open spec fn empty_table() -> Map<Seq<char>, TomlItem> {
    Map::empty()
}

/// The entries of an empty array of tables.
pub open spec fn no_tables() -> Seq<TomlItem> {
    Seq::empty()
}

/// Whether `m` holds an item (not `Empty`) under `k`, as `Table::get` sees it.
pub open spec fn present(m: Map<Seq<char>, TomlItem>, k: Seq<char>) -> bool {
    m.contains_key(k) && !(m[k] is Empty)
}

/// The string under `k` in `m`, when that is what it holds.
pub open spec fn text_at(m: Map<Seq<char>, TomlItem>, k: Seq<char>) -> Option<Seq<char>> {
    if present(m, k) {
        match m[k] {
            TomlItem::Text(s) => Some(s),
            _ => None,
        }
    } else {
        None
    }
}

/// The entries of the array of tables under `k` in `m`, when that is what it holds.
pub open spec fn tables_at(m: Map<Seq<char>, TomlItem>, k: Seq<char>) -> Option<Seq<TomlItem>> {
    if present(m, k) {
        match m[k] {
            TomlItem::Tables(s) => Some(s),
            _ => None,
        }
    } else {
        None
    }
}

/// What the `tab` key of a table with contents `m` holds.
pub open spec fn slot_at(m: Map<Seq<char>, TomlItem>) -> TabSlot {
    if !present(m, "tab"@) {
        TabSlot::Missing
    } else if tables_at(m, "tab"@) is Some {
        TabSlot::Tables
    } else {
        TabSlot::Other
    }
}

/// `o` outlines a group table with contents `m`.
pub open spec fn group_outline_of(o: GroupOutline, m: Map<Seq<char>, TomlItem>) -> bool {
    opt_view(o.name) == text_at(m, "name"@) && o.tab == slot_at(m)
}

/// `o` outlines entry `e` of a group array: a table as [`group_outline_of`] says, anything else
/// as a group with no name and no `tab` entry.
pub open spec fn group_entry_outline(o: GroupOutline, e: TomlItem) -> bool {
    match e {
        TomlItem::Table(m, _) => group_outline_of(o, m),
        _ => o.name is None && o.tab == TabSlot::Missing,
    }
}

/// `o` outlines a window table with contents `m`: its title, its `tab` slot, and, when `group`
/// is an array of tables, an outline of each entry.
pub open spec fn window_outline_of(o: WindowOutline, m: Map<Seq<char>, TomlItem>) -> bool {
    &&& opt_view(o.title) == text_at(m, "title"@)
    &&& o.tab == slot_at(m)
    &&& match tables_at(m, "group"@) {
        None => o.groups is None,
        Some(gs) => match o.groups {
            None => false,
            Some(v) => v@.len() == gs.len() && forall|i: int|
                0 <= i < gs.len() ==> group_entry_outline(#[trigger] v@[i], gs[i]),
        },
    }
}

/// `o` outlines entry `e` of a window array: a table as [`window_outline_of`] says, anything
/// else as a window with no title, no `tab` entry and no groups.
pub open spec fn window_entry_outline(o: WindowOutline, e: TomlItem) -> bool {
    match e {
        TomlItem::Table(m, _) => window_outline_of(o, m),
        _ => o.title is None && o.tab == TabSlot::Missing && o.groups is None,
    }
}

/// `r` outlines a document with root contents `d`: `None` when `window` is not an array of
/// tables, else an outline of each entry.
pub open spec fn document_outline_of(r: Option<Vec<WindowOutline>>, d: Map<Seq<char>, TomlItem>) -> bool {
    match tables_at(d, "window"@) {
        None => r is None,
        Some(ws) => match r {
            None => false,
            Some(v) => v@.len() == ws.len() && forall|i: int|
                0 <= i < ws.len() ==> window_entry_outline(#[trigger] v@[i], ws[i]),
        },
    }
}

/// The contents of a new table holding `fields`, inserted in order (a repeated key keeps its
/// last value).
pub open spec fn fields_table(fields: Seq<(&str, toml_edit::Value)>) -> Map<Seq<char>, TomlItem>
    decreases fields.len(),
{
    if fields.len() == 0 {
        Map::empty()
    } else {
        fields_table(fields.drop_last()).insert(fields.last().0@, toml_value(fields.last().1))
    }
}

/// The keys of a new table holding `fields`, inserted in order: each key where it first occurs.
pub open spec fn fields_keys(fields: Seq<(&str, toml_edit::Value)>) -> Seq<Seq<char>>
    decreases fields.len(),
{
    if fields.len() == 0 {
        Seq::empty()
    } else {
        keys_with(fields_keys(fields.drop_last()), fields.last().0@)
    }
}

/// A new table holding `fields`, inserted in order, as an item: its contents and its keys in
/// order.
pub open spec fn new_tab(fields: Seq<(&str, toml_edit::Value)>) -> TomlItem {
    TomlItem::Table(fields_table(fields), fields_keys(fields))
}

/// The keys, in order, of a table with contents `m` and keys `ks` after a table is appended to
/// its `tab` array of tables: unchanged when the key was there, else `tab` set as a new key.
pub open spec fn tab_pushed_keys(m: Map<Seq<char>, TomlItem>, ks: Seq<Seq<char>>) -> Seq<Seq<char>> {
    if m.contains_key("tab"@) {
        ks
    } else {
        keys_with(ks, "tab"@)
    }
}

/// The contents of a table with contents `m` after appending a table item `tab` to its
/// `tab` array of tables (created when the key is absent); `None` when `tab` holds anything else.
pub open spec fn with_pushed_tab(m: Map<Seq<char>, TomlItem>, tab: TomlItem) -> Option<
    Map<Seq<char>, TomlItem>,
> {
    if !m.contains_key("tab"@) {
        Some(m.insert("tab"@, TomlItem::Tables(seq![tab])))
    } else {
        match m["tab"@] {
            TomlItem::Tables(s) => Some(m.insert("tab"@, TomlItem::Tables(s.push(tab)))),
            _ => None,
        }
    }
}

/// The outcome of appending a tab table at a target.
pub enum ApplyOutcome {
    /// The document's root contents afterwards.
    Edited(Map<Seq<char>, TomlItem>),
    /// The target window is not a table of the `window` array of tables.
    NoWindow,
    /// The target group is not a table of the window's `group` array of tables.
    NoGroup,
    /// The receiving `tab` entry is not an array of tables.
    Malformed,
}

/// Appending a table item `tab` at `target` (into the target group when `grouped`) to a
/// document with root contents `d`.
pub open spec fn apply_outcome(
    d: Map<Seq<char>, TomlItem>,
    target: TabTarget,
    grouped: bool,
    tab: TomlItem,
) -> ApplyOutcome {
    match tables_at(d, "window"@) {
        None => ApplyOutcome::NoWindow,
        Some(ws) => {
            let w = target.window as int;
            if w >= ws.len() {
                ApplyOutcome::NoWindow
            } else {
                match ws[w] {
                    TomlItem::Table(wm, wk) => if !grouped {
                        match with_pushed_tab(wm, tab) {
                            Some(wm2) => ApplyOutcome::Edited(
                                d.insert(
                                    "window"@,
                                    TomlItem::Tables(
                                        ws.update(w, TomlItem::Table(wm2, tab_pushed_keys(wm, wk))),
                                    ),
                                ),
                            ),
                            None => ApplyOutcome::Malformed,
                        }
                    } else {
                        match target.group {
                            None => ApplyOutcome::NoGroup,
                            Some(jj) => {
                                let j = jj as int;
                                match tables_at(wm, "group"@) {
                                    None => ApplyOutcome::NoGroup,
                                    Some(gs) => if j >= gs.len() {
                                        ApplyOutcome::NoGroup
                                    } else {
                                        match gs[j] {
                                            TomlItem::Table(gm, gk) => match with_pushed_tab(gm, tab) {
                                                Some(gm2) => ApplyOutcome::Edited(
                                                    d.insert(
                                                        "window"@,
                                                        TomlItem::Tables(
                                                            ws.update(
                                                                w,
                                                                TomlItem::Table(
                                                                    wm.insert(
                                                                        "group"@,
                                                                        TomlItem::Tables(
                                                                            gs.update(
                                                                                j,
                                                                                TomlItem::Table(
                                                                                    gm2,
                                                                                    tab_pushed_keys(gm, gk),
                                                                                ),
                                                                            ),
                                                                        ),
                                                                    ),
                                                                    wk,
                                                                ),
                                                            ),
                                                        ),
                                                    ),
                                                ),
                                                None => ApplyOutcome::Malformed,
                                            },
                                            _ => ApplyOutcome::NoGroup,
                                        }
                                    },
                                }
                            },
                        }
                    },
                    _ => ApplyOutcome::NoWindow,
                }
            }
        },
    }
}

/// Whether array entry `e` is a table whose `title` is the string `title`.
pub open spec fn entry_titled(e: TomlItem, title: Seq<char>) -> bool {
    match e {
        TomlItem::Table(m, _) => text_at(m, "title"@) == Some(title),
        _ => false,
    }
}

/// Whether array entry `e` is a table whose `name` is the string `name`.
pub open spec fn entry_named(e: TomlItem, name: Seq<char>) -> bool {
    match e {
        TomlItem::Table(m, _) => text_at(m, "name"@) == Some(name),
        _ => false,
    }
}

/// The index of the first entry titled `title`, or `es.len()` when there is none.
pub open spec fn first_entry_titled(es: Seq<TomlItem>, title: Seq<char>) -> int
    decreases es.len(),
{
    if es.len() == 0 {
        0
    } else if entry_titled(es[0], title) {
        0
    } else {
        1 + first_entry_titled(es.drop_first(), title)
    }
}

/// The index of the first entry named `name`, or `es.len()` when there is none.
pub open spec fn first_entry_named(es: Seq<TomlItem>, name: Seq<char>) -> int
    decreases es.len(),
{
    if es.len() == 0 {
        0
    } else if entry_named(es[0], name) {
        0
    } else {
        1 + first_entry_named(es.drop_first(), name)
    }
}

/// The contents of array entry `e` when it is a table (else empty).
pub open spec fn entry_contents(e: TomlItem) -> Map<Seq<char>, TomlItem> {
    match e {
        TomlItem::Table(m, _) => m,
        _ => Map::empty(),
    }
}

/// Where a tab for window `title` (and group `group`) goes in a document with root contents `d`:
/// the first `[[window]]` table with that title, then its first `[[window.group]]` table with
/// that name; the receiving `tab` entry must be absent or an array of tables.
pub open spec fn model_plan(d: Map<Seq<char>, TomlItem>, title: Seq<char>, group: Option<Seq<char>>) -> PlanOutcome {
    match tables_at(d, "window"@) {
        None => PlanOutcome::NoWindow,
        Some(ws) => {
            let w = first_entry_titled(ws, title);
            if w >= ws.len() {
                PlanOutcome::NoWindow
            } else {
                let wm = entry_contents(ws[w]);
                match group {
                    None => if slot_at(wm) == TabSlot::Other {
                        PlanOutcome::Malformed
                    } else {
                        PlanOutcome::Target(TabTarget { window: w as usize, group: None })
                    },
                    Some(g) => match tables_at(wm, "group"@) {
                        None => PlanOutcome::NoGroup,
                        Some(gs) => {
                            let j = first_entry_named(gs, g);
                            if j >= gs.len() {
                                PlanOutcome::NoGroup
                            } else if slot_at(entry_contents(gs[j])) == TabSlot::Other {
                                PlanOutcome::Malformed
                            } else {
                                PlanOutcome::Target(
                                    TabTarget { window: w as usize, group: Some(j as usize) },
                                )
                            }
                        },
                    },
                }
            }
        },
    }
}

/// Adding a tab table item `tab` for window `title` (and group `group`) to a document
/// with root contents `d`: planned as [`model_plan`] says, then appended as [`apply_outcome`]
/// says.
pub open spec fn edit_outcome(
    d: Map<Seq<char>, TomlItem>,
    title: Seq<char>,
    group: Option<Seq<char>>,
    tab: TomlItem,
) -> ApplyOutcome {
    match model_plan(d, title, group) {
        PlanOutcome::Target(t) => apply_outcome(d, t, group is Some, tab),
        PlanOutcome::NoWindow => ApplyOutcome::NoWindow,
        PlanOutcome::NoGroup => ApplyOutcome::NoGroup,
        PlanOutcome::Malformed => ApplyOutcome::Malformed,
    }
}

/// Whether `r`, with the document's contents going from `before` to `after`, reports outcome `o`
/// for window `title` and group `group`: the edited contents on success, the contents unchanged
/// on each error.
pub open spec fn edit_reports(
    r: Result<(), EditError>,
    o: ApplyOutcome,
    title: Seq<char>,
    group: Option<Seq<char>>,
    before: Map<Seq<char>, TomlItem>,
    after: Map<Seq<char>, TomlItem>,
) -> bool {
    match o {
        ApplyOutcome::Edited(d) => r is Ok && after == d,
        ApplyOutcome::NoWindow => (r matches Err(EditError::WindowNotFound(s)) && s@ == title)
            && after == before,
        ApplyOutcome::NoGroup => (r matches Err(EditError::GroupNotFound(s)) && group == Some(s@))
            && after == before,
        ApplyOutcome::Malformed => r matches Err(EditError::MalformedTab) && after == before,
    }
}

/// Whether `r` reports outcome `o` for window `title` and group `group` as text: on success, the
/// rendering of a document holding the edited contents.
pub open spec fn text_reports(
    r: Result<String, EditError>,
    o: ApplyOutcome,
    title: Seq<char>,
    group: Option<Seq<char>>,
) -> bool {
    match o {
        ApplyOutcome::Edited(d) => r matches Ok(t) && exists|doc: toml_edit::DocumentMut|
            toml_document(doc) == d && t@ == #[trigger] toml_text(doc),
        ApplyOutcome::NoWindow => r matches Err(EditError::WindowNotFound(s)) && s@ == title,
        ApplyOutcome::NoGroup => r matches Err(EditError::GroupNotFound(s)) && group == Some(s@),
        ApplyOutcome::Malformed => r matches Err(EditError::MalformedTab),
    }
}

proof fn lemma_first_titled_outline(v: Seq<WindowOutline>, ws: Seq<TomlItem>, title: Seq<char>)
    requires
        v.len() == ws.len(),
        forall|i: int| 0 <= i < ws.len() ==> window_entry_outline(#[trigger] v[i], ws[i]),
    ensures
        first_titled(v, title) == first_entry_titled(ws, title),
    decreases ws.len(),
{
    if ws.len() > 0 {
        assert(titled(v[0], title) == entry_titled(ws[0], title)) by {
            assert(window_entry_outline(v[0], ws[0]));
        }
        let v1 = v.drop_first();
        let ws1 = ws.drop_first();
        assert forall|i: int| 0 <= i < ws1.len() implies window_entry_outline(#[trigger] v1[i], ws1[i]) by {
            assert(window_entry_outline(v[i + 1], ws[i + 1]));
        }
        lemma_first_titled_outline(v1, ws1, title);
    }
}

proof fn lemma_first_named_outline(v: Seq<GroupOutline>, gs: Seq<TomlItem>, name: Seq<char>)
    requires
        v.len() == gs.len(),
        forall|i: int| 0 <= i < gs.len() ==> group_entry_outline(#[trigger] v[i], gs[i]),
    ensures
        first_named(v, name) == first_entry_named(gs, name),
    decreases gs.len(),
{
    if gs.len() > 0 {
        assert(named(v[0], name) == entry_named(gs[0], name)) by {
            assert(group_entry_outline(v[0], gs[0]));
        }
        let v1 = v.drop_first();
        let gs1 = gs.drop_first();
        assert forall|i: int| 0 <= i < gs1.len() implies group_entry_outline(#[trigger] v1[i], gs1[i]) by {
            assert(group_entry_outline(v[i + 1], gs[i + 1]));
        }
        lemma_first_named_outline(v1, gs1, name);
    }
}

proof fn lemma_first_entry_titled(ws: Seq<TomlItem>, title: Seq<char>)
    ensures
        0 <= first_entry_titled(ws, title) <= ws.len(),
        first_entry_titled(ws, title) < ws.len() ==> entry_titled(ws[first_entry_titled(ws, title)], title),
    decreases ws.len(),
{
    if ws.len() > 0 && !entry_titled(ws[0], title) {
        lemma_first_entry_titled(ws.drop_first(), title);
    }
}

proof fn lemma_first_entry_named(gs: Seq<TomlItem>, name: Seq<char>)
    ensures
        0 <= first_entry_named(gs, name) <= gs.len(),
        first_entry_named(gs, name) < gs.len() ==> entry_named(gs[first_entry_named(gs, name)], name),
    decreases gs.len(),
{
    if gs.len() > 0 && !entry_named(gs[0], name) {
        lemma_first_entry_named(gs.drop_first(), name);
    }
}

/// Planning over a document's outline decides as planning over its contents does.
proof fn lemma_outline_plan(
    o: Option<Vec<WindowOutline>>,
    d: Map<Seq<char>, TomlItem>,
    title: Seq<char>,
    group: Option<Seq<char>>,
)
    requires
        document_outline_of(o, d),
    ensures
        plan_outcome(windows_view(&o), title, group) == model_plan(d, title, group),
{
    match tables_at(d, "window"@) {
        None => {},
        Some(ws) => {
            let v = o.unwrap()@;
            lemma_first_titled_outline(v, ws, title);
            lemma_first_entry_titled(ws, title);
            let w = first_entry_titled(ws, title);
            if w < ws.len() {
                assert(window_entry_outline(v[w], ws[w]));
                let wm = entry_contents(ws[w]);
                assert(window_outline_of(v[w], wm));
                match group {
                    None => {},
                    Some(g) => {
                        match tables_at(wm, "group"@) {
                            None => {},
                            Some(gs) => {
                                let gv = v[w].groups.unwrap()@;
                                lemma_first_named_outline(gv, gs, g);
                                lemma_first_entry_named(gs, g);
                                let j = first_entry_named(gs, g);
                                if j < gs.len() {
                                    assert(group_entry_outline(gv[j], gs[j]));
                                }
                            },
                        }
                    },
                }
            }
        },
    }
}

proof fn lemma_first_entry_titled_le(ws: Seq<TomlItem>, title: Seq<char>, i: int)
    requires
        0 <= i < ws.len(),
        entry_titled(ws[i], title),
    ensures
        first_entry_titled(ws, title) <= i,
    decreases ws.len(),
{
    if !entry_titled(ws[0], title) {
        assert(ws.drop_first()[i - 1] == ws[i]);
        lemma_first_entry_titled_le(ws.drop_first(), title, i - 1);
    }
}

proof fn lemma_first_entry_named_le(gs: Seq<TomlItem>, name: Seq<char>, j: int)
    requires
        0 <= j < gs.len(),
        entry_named(gs[j], name),
    ensures
        first_entry_named(gs, name) <= j,
    decreases gs.len(),
{
    if !entry_named(gs[0], name) {
        assert(gs.drop_first()[j - 1] == gs[j]);
        lemma_first_entry_named_le(gs.drop_first(), name, j - 1);
    }
}

/// Whether every position of the array of tables `a` (when there is one) fits in a `usize`.
pub open spec fn index_fits(a: Option<Seq<TomlItem>>) -> bool {
    match a {
        Some(s) => s.len() <= usize::MAX,
        None => true,
    }
}

/// Whether the document with root contents `d` has a `[[window]]` table titled `title`.
pub open spec fn has_window_titled(d: Map<Seq<char>, TomlItem>, title: Seq<char>) -> bool {
    tables_at(d, "window"@) matches Some(ws) && exists|i: int|
        0 <= i < ws.len() && entry_titled(#[trigger] ws[i], title)
}

/// The contents of the first `[[window]]` table titled `title`.
pub open spec fn first_window(d: Map<Seq<char>, TomlItem>, title: Seq<char>) -> Map<Seq<char>, TomlItem> {
    match tables_at(d, "window"@) {
        Some(ws) => entry_contents(ws[first_entry_titled(ws, title)]),
        None => Map::empty(),
    }
}

/// Whether a window with contents `w` has a `[[window.group]]` table named `name`.
pub open spec fn has_group_named(w: Map<Seq<char>, TomlItem>, name: Seq<char>) -> bool {
    tables_at(w, "group"@) matches Some(gs) && exists|j: int|
        0 <= j < gs.len() && entry_named(#[trigger] gs[j], name)
}

/// An edit reports "window not found" exactly when the document has no `[[window]]` table with
/// that title (the window array's length fitting in a `usize`, as an index of it must).
pub proof fn lemma_window_not_found(
    d: Map<Seq<char>, TomlItem>,
    title: Seq<char>,
    group: Option<Seq<char>>,
    tab: TomlItem,
)
    requires
        index_fits(tables_at(d, "window"@)),
    ensures
        (edit_outcome(d, title, group, tab) is NoWindow) <==> !has_window_titled(d, title),
{
    if let Some(ws) = tables_at(d, "window"@) {
        lemma_first_entry_titled(ws, title);
        let w = first_entry_titled(ws, title);
        if has_window_titled(d, title) {
            let i = choose|i: int| 0 <= i < ws.len() && entry_titled(#[trigger] ws[i], title);
            lemma_first_entry_titled_le(ws, title, i);
            assert(w < ws.len());
            assert((w as usize) as int == w);
            assert(ws[w] is Table);
        } else if w < ws.len() {
            assert(entry_titled(ws[w], title));
        }
    }
}

/// Once the window is found, an edit into group `name` reports "group not found" exactly when
/// that window (the first with the title) has no `[[window.group]]` table with that name (the
/// window and group arrays' lengths fitting in a `usize`, as indexes of them must). A missing
/// group is never created.
pub proof fn lemma_group_not_found(
    d: Map<Seq<char>, TomlItem>,
    title: Seq<char>,
    name: Seq<char>,
    tab: TomlItem,
)
    requires
        index_fits(tables_at(d, "window"@)),
        index_fits(tables_at(first_window(d, title), "group"@)),
        has_window_titled(d, title),
    ensures
        (edit_outcome(d, title, Some(name), tab) is NoGroup) <==> !has_group_named(
            first_window(d, title),
            name,
        ),
{
    let ws = tables_at(d, "window"@).unwrap();
    lemma_first_entry_titled(ws, title);
    let w = first_entry_titled(ws, title);
    let i = choose|i: int| 0 <= i < ws.len() && entry_titled(#[trigger] ws[i], title);
    lemma_first_entry_titled_le(ws, title, i);
    assert(w < ws.len());
    assert((w as usize) as int == w);
    assert(ws[w] is Table);
    let wm = entry_contents(ws[w]);
    assert(first_window(d, title) == wm);
    if let Some(gs) = tables_at(wm, "group"@) {
        lemma_first_entry_named(gs, name);
        let j = first_entry_named(gs, name);
        if has_group_named(wm, name) {
            let k = choose|k: int| 0 <= k < gs.len() && entry_named(#[trigger] gs[k], name);
            lemma_first_entry_named_le(gs, name, k);
            assert(j < gs.len());
            assert((j as usize) as int == j);
            assert(gs[j] is Table);
        } else if j < gs.len() {
            assert(entry_named(gs[j], name));
        }
    }
}

/// A loose tab (no group) is refused only for a `tab` entry that is not an array of tables: over
/// a document's outline, once the first window with the title is found, planning gives
/// `MalformedTab` exactly when that window's `tab` slot holds something else, and otherwise
/// targets that window, whatever groups it has.
pub proof fn lemma_loose_tab_plan(ws: Seq<WindowOutline>, title: Seq<char>)
    requires
        first_titled(ws, title) < ws.len(),
    ensures
        (plan_outcome(Some(ws), title, None) is Malformed) <==> ws[first_titled(ws, title)].tab
            == TabSlot::Other,
        ws[first_titled(ws, title)].tab != TabSlot::Other ==> plan_outcome(Some(ws), title, None)
            == PlanOutcome::Target(
            TabTarget { window: first_titled(ws, title) as usize, group: None },
        ),
{
}

/// A loose tab (no group) goes into the first window with the title unless that window holds a
/// `tab` key that is not an array of tables: the edit is refused as `MalformedTab` exactly then,
/// and otherwise succeeds, whatever groups the window has (the window array's length fitting in a
/// `usize`, as an index of it must).
pub proof fn lemma_loose_tab_edit(d: Map<Seq<char>, TomlItem>, title: Seq<char>, tab: TomlItem)
    requires
        index_fits(tables_at(d, "window"@)),
        has_window_titled(d, title),
    ensures
        (edit_outcome(d, title, None, tab) is Malformed) <==> (first_window(d, title).contains_key(
            "tab"@,
        ) && !(first_window(d, title)["tab"@] is Tables)),
        !(edit_outcome(d, title, None, tab) is Malformed) ==> edit_outcome(d, title, None, tab) is Edited,
{
    let ws = tables_at(d, "window"@).unwrap();
    lemma_first_entry_titled(ws, title);
    let w = first_entry_titled(ws, title);
    let i = choose|i: int| 0 <= i < ws.len() && entry_titled(#[trigger] ws[i], title);
    lemma_first_entry_titled_le(ws, title, i);
    assert(w < ws.len());
    assert((w as usize) as int == w);
    assert(ws[w] is Table);
    let wm = entry_contents(ws[w]);
    assert(first_window(d, title) == wm);
}

/// Parses `src` with `toml_edit` (`DocumentMut`'s `FromStr`). The contract names whether it
/// succeeds and what the parsed document holds, both functions of the text alone.
#[verifier::external_body]
fn parse_document(src: &str) -> (r: Result<toml_edit::DocumentMut, toml_edit::TomlError>)
    ensures
        r is Ok == toml_parses(src@),
        r matches Ok(d) ==> toml_document(d) == toml_parsed(src@),
{
    src.parse::<toml_edit::DocumentMut>()
}

/// `DocumentMut::as_table`: the document's root table.
#[verifier::external_body]
fn document_table(doc: &toml_edit::DocumentMut) -> (r: &toml_edit::Table)
    ensures
        toml_table(*r) == toml_document(*doc),
{
    doc.as_table()
}

/// `DocumentMut::as_table_mut`: the document's root table; the document holds what the table
/// holds when the borrow ends.
#[verifier::external_body]
fn document_table_mut(doc: &mut toml_edit::DocumentMut) -> (r: &mut toml_edit::Table)
    ensures
        toml_table(*r) == toml_document(*old(doc)),
        toml_document(*final(doc)) == toml_table(*final(r)),
{
    doc.as_table_mut()
}

/// `DocumentMut`'s `Display`: the document as TOML text, named as a function of the document;
/// what the text holds is not stated.
#[verifier::external_body]
fn document_text(doc: &toml_edit::DocumentMut) -> (r: String)
    ensures
        r@ == toml_text(*doc),
{
    doc.to_string()
}

/// `Table::get`: the item under `key`, unless the key is absent or holds `Item::None`.
#[verifier::external_body]
fn table_get<'a>(t: &'a toml_edit::Table, key: &str) -> (r: Option<&'a toml_edit::Item>)
    ensures
        match r {
            Some(i) => present(toml_table(*t), key@) && toml_item(*i) == toml_table(*t)[key@],
            None => !present(toml_table(*t), key@),
        },
{
    t.get(key)
}

/// `Table::get_mut`: the item under `key`, unless the key is absent or holds `Item::None`; the
/// table holds the item's final contents under `key` when the borrow ends, its keys in the same
/// order.
#[verifier::external_body]
fn table_get_mut<'a>(t: &'a mut toml_edit::Table, key: &str) -> (r: Option<&'a mut toml_edit::Item>)
    ensures
        match r {
            Some(i) => present(toml_table(*old(t)), key@) && toml_item(*i) == toml_table(
                *old(t),
            )[key@] && toml_table(*final(t)) == toml_table(*old(t)).insert(
                key@,
                toml_item(*final(i)),
            ),
            None => !present(toml_table(*old(t)), key@) && toml_table(*final(t)) == toml_table(
                *old(t),
            ),
        },
        toml_keys(*final(t)) == toml_keys(*old(t)),
{
    t.get_mut(key)
}

/// `Table::key`: whether the table has `key` at all (even holding `Item::None`).
#[verifier::external_body]
fn table_has_key(t: &toml_edit::Table, key: &str) -> (r: bool)
    ensures
        r == toml_table(*t).contains_key(key@),
{
    t.key(key).is_some()
}

/// `Table::new`: an empty table.
#[verifier::external_body]
fn table_new() -> (r: toml_edit::Table)
    ensures
        toml_table(r) == empty_table(),
        toml_keys(r) == Seq::<Seq<char>>::empty(),
{
    toml_edit::Table::new()
}

/// `Table::insert`: set `key` to `item` (the displaced item is dropped); a key already there
/// keeps its place, a new key goes last.
#[verifier::external_body]
fn table_insert(t: &mut toml_edit::Table, key: &str, item: toml_edit::Item)
    ensures
        toml_table(*final(t)) == toml_table(*old(t)).insert(key@, toml_item(item)),
        toml_keys(*final(t)) == keys_with(toml_keys(*old(t)), key@),
{
    t.insert(key, item);
}

/// `Item::as_str`: the item's string value, if it is one.
#[verifier::external_body]
fn item_str(i: &toml_edit::Item) -> (r: Option<String>)
    ensures
        match toml_item(*i) {
            TomlItem::Text(s) => r matches Some(x) && x@ == s,
            _ => r is None,
        },
{
    match i.as_str() {
        Some(s) => Some(s.to_owned()),
        None => None,
    }
}

/// `Item::as_array_of_tables`: the item as an array of tables, if it is one.
#[verifier::external_body]
fn item_tables(i: &toml_edit::Item) -> (r: Option<&toml_edit::ArrayOfTables>)
    ensures
        match toml_item(*i) {
            TomlItem::Tables(s) => r matches Some(a) && toml_tables(*a) == s,
            _ => r is None,
        },
{
    i.as_array_of_tables()
}

/// `Item::as_array_of_tables_mut`: the item as an array of tables, if it is one; the item holds
/// the array's final entries when the borrow ends.
#[verifier::external_body]
fn item_tables_mut(i: &mut toml_edit::Item) -> (r: Option<&mut toml_edit::ArrayOfTables>)
    ensures
        match r {
            Some(a) => toml_item(*old(i)) == TomlItem::Tables(toml_tables(*a)) && toml_item(
                *final(i),
            ) == TomlItem::Tables(toml_tables(*final(a))),
            None => !(toml_item(*old(i)) is Tables) && toml_item(*final(i)) == toml_item(*old(i)),
        },
{
    i.as_array_of_tables_mut()
}

/// `toml_edit::value`: an item holding `v`.
#[verifier::external_body]
fn value_item(v: toml_edit::Value) -> (r: toml_edit::Item)
    ensures
        toml_item(r) == toml_value(v),
{
    toml_edit::value(v)
}

/// `Value`'s `Clone`: a value holding the same.
#[verifier::external_body]
fn clone_value(v: &toml_edit::Value) -> (r: toml_edit::Value)
    ensures
        toml_value(r) == toml_value(*v),
{
    v.clone()
}

/// `ArrayOfTables::new`: an empty array of tables.
#[verifier::external_body]
fn tables_new() -> (r: toml_edit::ArrayOfTables)
    ensures
        toml_tables(r) == no_tables(),
{
    toml_edit::ArrayOfTables::new()
}

/// `Item::ArrayOfTables`: an item holding `a`.
#[verifier::external_body]
fn tables_item(a: toml_edit::ArrayOfTables) -> (r: toml_edit::Item)
    ensures
        toml_item(r) == TomlItem::Tables(toml_tables(a)),
{
    toml_edit::Item::ArrayOfTables(a)
}

/// `ArrayOfTables::len`: the number of entries.
#[verifier::external_body]
fn tables_len(a: &toml_edit::ArrayOfTables) -> (r: usize)
    ensures
        r == toml_tables(*a).len(),
{
    a.len()
}

/// `ArrayOfTables::get`: the entry at `i` when there is one and it is a table.
#[verifier::external_body]
fn tables_get<'a>(a: &'a toml_edit::ArrayOfTables, i: usize) -> (r: Option<&'a toml_edit::Table>)
    ensures
        match r {
            Some(t) => i < toml_tables(*a).len() && toml_tables(*a)[i as int] == table_item(*t),
            None => !(i < toml_tables(*a).len() && toml_tables(*a)[i as int] is Table),
        },
{
    a.get(i)
}

/// `ArrayOfTables::get_mut`: the entry at `i` when there is one and it is a table; the array
/// holds the table's final contents at `i` when the borrow ends.
#[verifier::external_body]
fn tables_get_mut<'a>(a: &'a mut toml_edit::ArrayOfTables, i: usize) -> (r: Option<&'a mut toml_edit::Table>)
    ensures
        match r {
            Some(t) => i < toml_tables(*old(a)).len() && toml_tables(*old(a))[i as int]
                == table_item(*t) && toml_tables(*final(a)) == toml_tables(*old(a)).update(
                i as int,
                table_item(*final(t)),
            ),
            None => !(i < toml_tables(*old(a)).len() && toml_tables(*old(a))[i as int] is Table)
                && toml_tables(*final(a)) == toml_tables(*old(a)),
        },
{
    a.get_mut(i)
}

/// `ArrayOfTables::push`: append `t`.
#[verifier::external_body]
fn tables_push(a: &mut toml_edit::ArrayOfTables, t: toml_edit::Table)
    ensures
        toml_tables(*final(a)) == toml_tables(*old(a)).push(table_item(t)),
{
    a.push(t);
}

/// What the `tab` key of table `t` holds.
fn tab_slot(t: &toml_edit::Table) -> (r: TabSlot)
    ensures
        r == slot_at(toml_table(*t)),
{
    match table_get(t, "tab") {
        None => TabSlot::Missing,
        Some(item) => match item_tables(item) {
            Some(_) => TabSlot::Tables,
            None => TabSlot::Other,
        },
    }
}

/// The array of tables under `key` in `t`, if that is what `key` holds.
fn tables_under<'a>(t: &'a toml_edit::Table, key: &str) -> (r: Option<&'a toml_edit::ArrayOfTables>)
    ensures
        match tables_at(toml_table(*t), key@) {
            Some(s) => r matches Some(a) && toml_tables(*a) == s,
            None => r is None,
        },
{
    match table_get(t, key) {
        Some(item) => item_tables(item),
        None => None,
    }
}

/// The outline of a group table.
fn group_outline(t: &toml_edit::Table) -> (r: GroupOutline)
    ensures
        group_outline_of(r, toml_table(*t)),
{
    let name = match table_get(t, "name") {
        Some(item) => item_str(item),
        None => None,
    };
    GroupOutline { name, tab: tab_slot(t) }
}

/// The outline of a window table.
fn window_outline(t: &toml_edit::Table) -> (r: WindowOutline)
    ensures
        window_outline_of(r, toml_table(*t)),
{
    let title = match table_get(t, "title") {
        Some(item) => item_str(item),
        None => None,
    };
    let groups = match tables_under(t, "group") {
        Some(a) => {
            let n = tables_len(a);
            let ghost s = toml_tables(*a);
            let mut gs: Vec<GroupOutline> = Vec::new();
            let mut i: usize = 0;
            while i < n
                invariant
                    i <= n,
                    n == s.len(),
                    s == toml_tables(*a),
                    gs@.len() == i,
                    forall|k: int| 0 <= k < i ==> group_entry_outline(#[trigger] gs@[k], s[k]),
                decreases n - i,
            {
                // An entry that is not a table can never match a name.
                let g = match tables_get(a, i) {
                    Some(gt) => group_outline(gt),
                    None => GroupOutline { name: None, tab: TabSlot::Missing },
                };
                gs.push(g);
                i = i + 1;
            }
            Some(gs)
        },
        None => None,
    };
    WindowOutline { title, tab: tab_slot(t), groups }
}

/// The outline of a document's windows, `None` when `window` is not an array of tables.
fn document_outline(doc: &toml_edit::DocumentMut) -> (r: Option<Vec<WindowOutline>>)
    ensures
        document_outline_of(r, toml_document(*doc)),
{
    let root = document_table(doc);
    match tables_under(root, "window") {
        Some(a) => {
            let n = tables_len(a);
            let ghost s = toml_tables(*a);
            let mut ws: Vec<WindowOutline> = Vec::new();
            let mut i: usize = 0;
            while i < n
                invariant
                    i <= n,
                    n == s.len(),
                    s == toml_tables(*a),
                    ws@.len() == i,
                    forall|k: int| 0 <= k < i ==> window_entry_outline(#[trigger] ws@[k], s[k]),
                decreases n - i,
            {
                // An entry that is not a table can never match a title.
                let w = match tables_get(a, i) {
                    Some(wt) => window_outline(wt),
                    None => WindowOutline { title: None, tab: TabSlot::Missing, groups: None },
                };
                ws.push(w);
                i = i + 1;
            }
            Some(ws)
        },
        None => None,
    }
}

/// A new table holding `fields`, in order.
fn tab_table(fields: &[(&str, toml_edit::Value)]) -> (r: toml_edit::Table)
    ensures
        table_item(r) == new_tab(fields@),
{
    let mut tab = table_new();
    let mut i: usize = 0;
    while i < fields.len()
        invariant
            i <= fields@.len(),
            toml_table(tab) == fields_table(fields@.take(i as int)),
            toml_keys(tab) == fields_keys(fields@.take(i as int)),
        decreases fields@.len() - i,
    {
        let (k, v) = &fields[i];
        table_insert(&mut tab, k, value_item(clone_value(v)));
        proof {
            assert(fields@.take(i + 1).drop_last() =~= fields@.take(i as int));
            assert(fields@.take(i + 1).last() == fields@[i as int]);
        }
        i = i + 1;
    }
    proof {
        assert(fields@.take(fields@.len() as int) =~= fields@);
    }
    tab
}

/// Append `tab` to the `tab` array of tables of `t`, creating the array when the key is absent;
/// `MalformedTab`, with `t` unchanged, when `tab` holds anything else.
fn push_tab(t: &mut toml_edit::Table, tab: toml_edit::Table) -> (r: Result<(), EditError>)
    ensures
        match with_pushed_tab(toml_table(*old(t)), table_item(tab)) {
            Some(m) => r is Ok && toml_table(*final(t)) == m && toml_keys(*final(t))
                == tab_pushed_keys(toml_table(*old(t)), toml_keys(*old(t))),
            None => r matches Err(EditError::MalformedTab) && toml_table(*final(t)) == toml_table(
                *old(t),
            ) && toml_keys(*final(t)) == toml_keys(*old(t)),
        },
{
    let ghost m = toml_table(*t);
    let ghost tm = table_item(tab);
    match table_get_mut(t, "tab") {
        Some(item) => match item_tables_mut(item) {
            Some(tabs) => {
                tables_push(tabs, tab);
                Ok(())
            },
            None => {
                proof {
                    assert(m.insert("tab"@, m["tab"@]) =~= m);
                }
                Err(EditError::MalformedTab)
            },
        },
        None => {
            if table_has_key(t, "tab") {
                Err(EditError::MalformedTab)
            } else {
                let mut tabs = tables_new();
                tables_push(&mut tabs, tab);
                proof {
                    assert(Seq::<TomlItem>::empty().push(tm) =~= seq![tm]);
                }
                table_insert(t, "tab", tables_item(tabs));
                Ok(())
            }
        },
    }
}

/// Append `tab` at `target` in `doc`: into the target window's `tab` array of tables, or, with
/// `group`, into the target group's; the document is unchanged on an error.
fn apply_tab(
    doc: &mut toml_edit::DocumentMut,
    target: TabTarget,
    window_title: &str,
    group: Option<&str>,
    tab: toml_edit::Table,
) -> (r: Result<(), EditError>)
    ensures
        match apply_outcome(toml_document(*old(doc)), target, group is Some, table_item(tab)) {
            ApplyOutcome::Edited(d) => r is Ok && toml_document(*final(doc)) == d,
            ApplyOutcome::NoWindow => (r matches Err(EditError::WindowNotFound(s)) && s@
                == window_title@) && toml_document(*final(doc)) == toml_document(*old(doc)),
            ApplyOutcome::NoGroup => (r matches Err(EditError::GroupNotFound(s)) && opt_view(group)
                == Some(s@)) && toml_document(*final(doc)) == toml_document(*old(doc)),
            ApplyOutcome::Malformed => r matches Err(EditError::MalformedTab) && toml_document(
                *final(doc),
            ) == toml_document(*old(doc)),
        },
{
    let ghost d = toml_document(*doc);
    let root = document_table_mut(doc);
    let windows = match table_get_mut(root, "window") {
        Some(item) => match item_tables_mut(item) {
            Some(a) => a,
            None => {
                proof {
                    assert(d.insert("window"@, d["window"@]) =~= d);
                }
                return Err(EditError::WindowNotFound(window_title.to_owned()));
            },
        },
        None => return Err(EditError::WindowNotFound(window_title.to_owned())),
    };
    let ghost ws = toml_tables(*windows);
    let win = match tables_get_mut(windows, target.window) {
        Some(w) => w,
        None => {
            proof {
                assert(d.insert("window"@, TomlItem::Tables(ws)) =~= d);
            }
            return Err(EditError::WindowNotFound(window_title.to_owned()));
        },
    };
    let ghost wm = toml_table(*win);
    let ghost wk = toml_keys(*win);
    match (group, target.group) {
        (Some(g), Some(j)) => {
            let groups = match table_get_mut(win, "group") {
                Some(item) => match item_tables_mut(item) {
                    Some(a) => a,
                    None => {
                        proof {
                            assert(wm.insert("group"@, wm["group"@]) =~= wm);
                            assert(ws.update(target.window as int, TomlItem::Table(wm, wk)) =~= ws);
                            assert(d.insert("window"@, TomlItem::Tables(ws)) =~= d);
                        }
                        return Err(EditError::GroupNotFound(g.to_owned()));
                    },
                },
                None => {
                    proof {
                        assert(ws.update(target.window as int, TomlItem::Table(wm, wk)) =~= ws);
                        assert(d.insert("window"@, TomlItem::Tables(ws)) =~= d);
                    }
                    return Err(EditError::GroupNotFound(g.to_owned()));
                },
            };
            let ghost gs = toml_tables(*groups);
            match tables_get_mut(groups, j) {
                Some(grp) => {
                    let ghost gm = toml_table(*grp);
                    let ghost gk = toml_keys(*grp);
                    let r = push_tab(grp, tab);
                    proof {
                        if r is Err {
                            assert(gs.update(j as int, TomlItem::Table(gm, gk)) =~= gs);
                            assert(wm.insert("group"@, TomlItem::Tables(gs)) =~= wm);
                            assert(ws.update(target.window as int, TomlItem::Table(wm, wk)) =~= ws);
                            assert(d.insert("window"@, TomlItem::Tables(ws)) =~= d);
                        }
                    }
                    r
                },
                None => {
                    proof {
                        assert(wm.insert("group"@, TomlItem::Tables(gs)) =~= wm);
                        assert(ws.update(target.window as int, TomlItem::Table(wm, wk)) =~= ws);
                        assert(d.insert("window"@, TomlItem::Tables(ws)) =~= d);
                    }
                    Err(EditError::GroupNotFound(g.to_owned()))
                },
            }
        },
        (Some(g), None) => {
            proof {
                assert(ws.update(target.window as int, TomlItem::Table(wm, wk)) =~= ws);
                assert(d.insert("window"@, TomlItem::Tables(ws)) =~= d);
            }
            Err(EditError::GroupNotFound(g.to_owned()))
        },
        (None, _) => {
            let r = push_tab(win, tab);
            proof {
                if r is Err {
                    assert(ws.update(target.window as int, TomlItem::Table(wm, wk)) =~= ws);
                    assert(d.insert("window"@, TomlItem::Tables(ws)) =~= d);
                }
            }
            r
        },
    }
}

/// Append a `[[window.tab]]` (group `None`) or `[[window.group.tab]]` (group `Some(name)`) table
/// holding `fields` to the first window titled `window_title` (and its first group named `group`)
/// in `doc`. Errors, leaving the document's contents unchanged, when the window (or named group)
/// does not exist or its `tab` entry is not an array of tables.
pub fn edit_document(
    doc: &mut toml_edit::DocumentMut,
    window_title: &str,
    group: Option<&str>,
    fields: &[(&str, toml_edit::Value)],
) -> (r: Result<(), EditError>)
    ensures
        edit_reports(
            r,
            edit_outcome(
                toml_document(*old(doc)),
                window_title@,
                opt_view(group),
                new_tab(fields@),
            ),
            window_title@,
            opt_view(group),
            toml_document(*old(doc)),
            toml_document(*final(doc)),
        ),
{
    let outline = document_outline(doc);
    proof {
        lemma_outline_plan(outline, toml_document(*doc), window_title@, opt_view(group));
    }
    let target = match plan_add_tab(&outline, window_title, group) {
        Ok(t) => t,
        Err(e) => return Err(e),
    };
    let tab = tab_table(fields);
    apply_tab(doc, target, window_title, group, tab)
}

/// Append a `[[window.tab]]` (group `None`) or `[[window.group.tab]]` (group `Some(name)`) table
/// holding `fields` in order to the window titled `window_title` in the TOML document `source`,
/// and return the edited document's text. The contract states the edited contents (the items
/// under every other key unchanged, the new table's keys in the order of `fields`); that comments
/// and formatting survive in the text rests on `toml_edit`'s rendering and is not stated. Errors
/// when `source` is not TOML, or the window (or named group) does not exist, or its `tab` entry
/// is not an array of tables.
pub fn add_tab(
    source: &str,
    window_title: &str,
    group: Option<&str>,
    fields: &[(&str, toml_edit::Value)],
) -> (r: Result<String, EditError>)
    ensures
        (r matches Err(EditError::Toml(_))) == !toml_parses(source@),
        toml_parses(source@) ==> text_reports(
            r,
            edit_outcome(
                toml_parsed(source@),
                window_title@,
                opt_view(group),
                new_tab(fields@),
            ),
            window_title@,
            opt_view(group),
        ),
        !(r matches Err(EditError::Io(_))),
{
    let mut doc = match parse_document(source) {
        Ok(d) => d,
        Err(e) => return Err(EditError::Toml(e)),
    };
    match edit_document(&mut doc, window_title, group, fields) {
        Ok(()) => {
            let text = document_text(&doc);
            proof {
                assert(toml_text(doc) == text@);
            }
            Ok(text)
        },
        Err(e) => Err(e),
    }
}

}
