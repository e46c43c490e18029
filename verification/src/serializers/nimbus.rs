//! The Nimbus human-readable scene format, designed for git-diffable scene
//! files with clean entity boundaries:
//!
//! ```text
//! # Nimbus Scene Format v1
//! @archetype [Position, Velocity]
//!   @entity 0
//!     Position: {"x": 1.0, "y": 2.0}
//!     Velocity: {"dx": 0.0, "dy": 0.0}
//! ```
//!
//! - `@archetype [A, B]` opens a block of entities with those component types
//! - `@entity N` declares an entity with a file-local index
//! - indented `Type: value` lines are components; a value whose braces do not
//!   balance on its line continues on the following lines
//! - `#` starts a comment line

use vstd::prelude::*;
use crate::entity::Entity;
use crate::component::ComponentId;
use crate::world::World;
use super::scene::{decimal, format_index};
use super::text::{
    trim, trimmed, starts_with, begins_with, first_pos, last_pos, find_char, rfind_char, split_on, lemma_split_on_len,
    lines_of, split_lines, chars_of, braces, count_braces, lemma_brace_bound, string_of, push_char, skip_ws, skip_word,
    lemma_skip_ws, lemma_skip_word, char_is_ws, parse_u32, parse_u32_chars, copy_range, is_ws, skip_ws_from, skip_word_from,
    lemma_lines_bounds,
};

verus! {

/// The text formats of component values.
#[derive(Clone, Copy, PartialEq, Eq, Structural, Debug)]
pub enum TextFormat {
    /// JSON, compact, on one line.
    Json,
    /// JSON, pretty-printed over several lines.
    JsonPretty,
}

impl Default for TextFormat {
    fn default() -> (r: TextFormat)
        ensures
            r == TextFormat::Json,
    {
        TextFormat::Json
    }
}

/// Errors of the scene format.
#[derive(Debug)]
pub enum NimbusError {
    /// A line does not follow the format.
    Parse { line: usize, message: String },
    /// A component type is not registered.
    UnknownComponent { line: usize, name: String },
    /// An entity reference does not resolve.
    InvalidReference { line: usize, reference: String },
    /// A component could not be serialized.
    Serialize { entity: u32, component: String, message: String },
    /// A component could not be deserialized.
    Deserialize { line: usize, component: String, message: String },
}

/// The message of an error, as its `Display` text reads.
pub open spec fn error_text(e: NimbusError) -> Seq<char> {
    match e {
        NimbusError::Parse { line, message } => "Parse error at line "@ + decimal(line as nat) + ": "@ + message@,
        NimbusError::UnknownComponent { line, name } => "Unknown component '"@ + name@ + "' at line "@ + decimal(line as nat),
        NimbusError::InvalidReference { line, reference } => "Invalid entity reference '"@ + reference@ + "' at line "@
            + decimal(line as nat),
        NimbusError::Serialize { entity, component, message } => "Failed to serialize "@ + component@ + " on entity "@
            + decimal(entity as nat) + ": "@ + message@,
        NimbusError::Deserialize { line, component, message } => "Failed to deserialize "@ + component@ + " at line "@
            + decimal(line as nat) + ": "@ + message@,
    }
}

impl NimbusError {
    /// The message of the error.
    pub fn message(&self) -> (r: String)
        ensures
            r@ == error_text(*self),
    {
        let mut out = String::new();
        match self {
            NimbusError::Parse { line, message } => {
                out.append("Parse error at line ");
                out.append(format_index(*line as u64).as_str());
                out.append(": ");
                out.append(message.as_str());
            },
            NimbusError::UnknownComponent { line, name } => {
                out.append("Unknown component '");
                out.append(name.as_str());
                out.append("' at line ");
                out.append(format_index(*line as u64).as_str());
            },
            NimbusError::InvalidReference { line, reference } => {
                out.append("Invalid entity reference '");
                out.append(reference.as_str());
                out.append("' at line ");
                out.append(format_index(*line as u64).as_str());
            },
            NimbusError::Serialize { entity, component, message } => {
                out.append("Failed to serialize ");
                out.append(component.as_str());
                out.append(" on entity ");
                out.append(format_index(*entity as u64).as_str());
                out.append(": ");
                out.append(message.as_str());
            },
            NimbusError::Deserialize { line, component, message } => {
                out.append("Failed to deserialize ");
                out.append(component.as_str());
                out.append(" at line ");
                out.append(format_index(*line as u64).as_str());
                out.append(": ");
                out.append(message.as_str());
            },
        }
        out
    }
}

/// A serialized entity: its file-local index and its components as
/// (type name, serialized value) pairs.
#[derive(Debug, Clone)]
pub struct SerializedEntity {
    pub index: u32,
    pub comment: Option<String>,
    pub components: Vec<(String, String)>,
}

/// A group of entities with the same component types.
#[derive(Debug, Clone)]
pub struct SerializedArchetype {
    pub component_types: Vec<String>,
    pub entities: Vec<SerializedEntity>,
}

/// A complete serialized world.
#[derive(Debug, Clone)]
pub struct SerializedWorld {
    pub header: Option<String>,
    pub archetypes: Vec<SerializedArchetype>,
    pub entities: Vec<SerializedEntity>,
}

/// An entity as characters.
pub ghost struct EntityModel {
    pub index: u32,
    pub comment: Option<Seq<char>>,
    pub components: Seq<(Seq<char>, Seq<char>)>,
}

/// An archetype block as characters.
pub ghost struct ArchetypeModel {
    pub types: Seq<Seq<char>>,
    pub entities: Seq<EntityModel>,
}

/// A world as characters.
pub ghost struct WorldModel {
    pub header: Option<Seq<char>>,
    pub archetypes: Seq<ArchetypeModel>,
    pub entities: Seq<EntityModel>,
}

/// The characters of an optional string.
pub open spec fn opt_view(s: Option<String>) -> Option<Seq<char>> {
    match s {
        Some(x) => Some(x@),
        None => None,
    }
}

impl View for SerializedEntity {
    type V = EntityModel;

    open spec fn view(&self) -> EntityModel {
        EntityModel {
            index: self.index,
            comment: opt_view(self.comment),
            components: self.components@.map_values(|p: (String, String)| (p.0@, p.1@)),
        }
    }
}

impl View for SerializedArchetype {
    type V = ArchetypeModel;

    open spec fn view(&self) -> ArchetypeModel {
        ArchetypeModel {
            types: self.component_types@.map_values(|t: String| t@),
            entities: self.entities@.map_values(|e: SerializedEntity| e@),
        }
    }
}

impl View for SerializedWorld {
    type V = WorldModel;

    open spec fn view(&self) -> WorldModel {
        WorldModel {
            header: opt_view(self.header),
            archetypes: self.archetypes@.map_values(|a: SerializedArchetype| a@),
            entities: self.entities@.map_values(|e: SerializedEntity| e@),
        }
    }
}

impl SerializedWorld {
    /// An empty world.
    pub fn new() -> (r: SerializedWorld)
        ensures
            r@ == (WorldModel { header: None, archetypes: Seq::empty(), entities: Seq::empty() }),
    {
        let r = SerializedWorld { header: None, archetypes: Vec::new(), entities: Vec::new() };
        proof {
            assert(r@.archetypes =~= Seq::<ArchetypeModel>::empty());
            assert(r@.entities =~= Seq::<EntityModel>::empty());
        }
        r
    }
}

/// How parsing ends: with a world, with an error at a line, or with a
/// panic (an archetype line whose last `]` comes before its first `[`).
pub ghost enum ParseOutcome {
    Done(WorldModel),
    Failed(nat, Seq<char>),
    Panics,
}

/// What the parser holds between lines.
pub ghost struct ParseState {
    pub world: WorldModel,
    pub arch: Option<ArchetypeModel>,
    pub ent: Option<EntityModel>,
}

/// The text of `@archetype`.
pub open spec fn archetype_tag() -> Seq<char> {
    seq!['@', 'a', 'r', 'c', 'h', 'e', 't', 'y', 'p', 'e']
}

/// The text of `@entity`.
pub open spec fn entity_tag() -> Seq<char> {
    seq!['@', 'e', 'n', 't', 'i', 't', 'y']
}

/// The non-empty trimmed pieces between commas.
pub open spec fn type_names(pieces: Seq<Seq<char>>) -> Seq<Seq<char>>
    decreases pieces.len(),
{
    if pieces.len() == 0 {
        Seq::empty()
    } else {
        let rest = type_names(pieces.drop_last());
        let t = trim(pieces.last());
        if t.len() > 0 {
            rest.push(t)
        } else {
            rest
        }
    }
}

/// The second whitespace-separated word of a line that starts with a
/// non-whitespace character, if there is one.
pub open spec fn second_word(t: Seq<char>) -> Option<Seq<char>> {
    let a = skip_word(t, 0);
    let b = skip_ws(t, a);
    if b < t.len() {
        Some(t.subrange(b, skip_word(t, b)))
    } else {
        None
    }
}

/// The current entity saved into the current archetype, or into the world
/// when there is no archetype.
pub open spec fn save_entity(st: ParseState) -> ParseState {
    match st.ent {
        Some(e) => match st.arch {
            Some(a) => ParseState { world: st.world, arch: Some(ArchetypeModel { types: a.types, entities: a.entities.push(e) }), ent: None },
            None => ParseState {
                world: WorldModel { header: st.world.header, archetypes: st.world.archetypes, entities: st.world.entities.push(e) },
                ent: None,
                arch: None,
            },
        },
        None => st,
    }
}

/// The world at the end of the input: the current entity and archetype
/// saved.
pub open spec fn finish(st: ParseState) -> WorldModel {
    let s = save_entity(st);
    match s.arch {
        Some(a) => WorldModel { header: s.world.header, archetypes: s.world.archetypes.push(a), entities: s.world.entities },
        None => s.world,
    }
}

/// A multi-line component value continues at line `j`, with the given
/// depth and value so far; the value started at line `start`.
pub open spec fn continue_value(lines: Seq<Seq<char>>, j: int, depth: int, value: Seq<char>, start: int) -> Result<
    (Seq<char>, nat),
    (nat, Seq<char>),
>
    decreases lines.len() - j,
{
    if j >= lines.len() || j < 0 {
        Err(((start + 1) as nat, "Unclosed braces in component value"@))
    } else {
        let value2 = value + seq!['\n'] + trim(lines[j]);
        let depth2 = depth + braces(lines[j]);
        if depth2 == 0 {
            Ok((value2, (j - start + 1) as nat))
        } else {
            continue_value(lines, j + 1, depth2, value2, start)
        }
    }
}

/// A value that continues at line `j` ends at a line of the input, after
/// the line where it started.
pub proof fn lemma_continue_value(lines: Seq<Seq<char>>, j: int, depth: int, value: Seq<char>, start: int)
    requires
        start < j,
    ensures
        continue_value(lines, j, depth, value, start) matches Ok((v, n)) ==> 2 <= n && start + n <= lines.len(),
        continue_value(lines, j, depth, value, start) matches Err(e) ==> e == ((start + 1) as nat, "Unclosed braces in component value"@),
    decreases lines.len() - j,
{
    if 0 <= j < lines.len() {
        let value2 = value + seq!['\n'] + trim(lines[j]);
        let depth2 = depth + braces(lines[j]);
        if depth2 != 0 {
            lemma_continue_value(lines, j + 1, depth2, value2, start);
        }
    }
}

/// A component takes at least one line, and no more than the input holds.
pub proof fn lemma_component_lines(lines: Seq<Seq<char>>, i: int)
    requires
        0 <= i < lines.len(),
    ensures
        component_at(lines, i) matches Ok((name, value, n)) ==> 1 <= n && i + n <= lines.len(),
{
    let first = trim(lines[i]);
    if let Some(c) = first_pos(first, ':') {
        let value = trim(first.subrange(c + 1, first.len() as int));
        lemma_continue_value(lines, i + 1, braces(value), value, i);
    }
}

/// The component of line `i`: its type name, its value, and how many lines
/// the value takes; or the error of line `i`.
pub open spec fn component_at(lines: Seq<Seq<char>>, i: int) -> Result<(Seq<char>, Seq<char>, nat), (nat, Seq<char>)> {
    let first = trim(lines[i]);
    match first_pos(first, ':') {
        None => Err(((i + 1) as nat, "Expected ':' after component type name"@)),
        Some(c) => {
            let name = trim(first.subrange(0, c));
            let value = trim(first.subrange(c + 1, first.len() as int));
            let d = braces(value);
            if d == 0 {
                Ok((name, value, 1nat))
            } else {
                match continue_value(lines, i + 1, d, value, i) {
                    Ok((v, n)) => Ok((name, v, n)),
                    Err(e) => Err(e),
                }
            }
        },
    }
}

/// The line of an `@archetype` declaration read into its type names, or
/// its error; `None` when it panics.
pub open spec fn archetype_line(t: Seq<char>, line: nat) -> Option<Result<Seq<Seq<char>>, (nat, Seq<char>)>> {
    match first_pos(t, '[') {
        None => Some(Err((line, "Expected '[' after @archetype"@))),
        Some(s) => match last_pos(t, ']') {
            None => Some(Err((line, "Expected ']' in @archetype"@))),
            Some(e) => if e < s + 1 {
                None
            } else {
                Some(Ok(type_names(split_on(t.subrange(s + 1, e), ','))))
            },
        },
    }
}

/// The world when an `@archetype` line starts a new block: the block being
/// read, with its current entity, is saved; with no block open, the current
/// entity is dropped.
pub open spec fn close_archetype(st: ParseState) -> WorldModel {
    match st.arch {
        Some(a) => WorldModel {
            header: st.world.header,
            archetypes: st.world.archetypes.push(
                match st.ent {
                    Some(e) => ArchetypeModel { types: a.types, entities: a.entities.push(e) },
                    None => a,
                },
            ),
            entities: st.world.entities,
        },
        None => st.world,
    }
}

/// Parsing from line `i` on, in a given state.
#[verifier::opaque]
pub open spec fn parse_from(lines: Seq<Seq<char>>, i: int, st: ParseState) -> ParseOutcome
    decreases lines.len() - i,
{
    if i >= lines.len() || i < 0 {
        ParseOutcome::Done(finish(st))
    } else {
        let line = lines[i];
        let t = trim(line);
        let num = (i + 1) as nat;
        if t.len() == 0 || t[0] == '#' {
            parse_from(lines, i + 1, st)
        } else if starts_with(t, archetype_tag()) {
            match archetype_line(t, num) {
                None => ParseOutcome::Panics,
                Some(Err((l, m))) => ParseOutcome::Failed(l, m),
                Some(Ok(types)) => parse_from(
                    lines,
                    i + 1,
                    ParseState {
                        world: close_archetype(st),
                        arch: Some(ArchetypeModel { types, entities: Seq::empty() }),
                        ent: None,
                    },
                ),
            }
        } else if starts_with(t, entity_tag()) {
            let st1 = save_entity(st);
            match second_word(t) {
                None => ParseOutcome::Failed(num, "Expected entity index after @entity"@),
                Some(w) => match parse_u32(w) {
                    None => ParseOutcome::Failed(num, "Invalid entity index: "@ + w),
                    Some(index) => parse_from(
                        lines,
                        i + 1,
                        ParseState { world: st1.world, arch: st1.arch, ent: Some(EntityModel { index, comment: None, components: Seq::empty() }) },
                    ),
                },
            }
        } else if line.len() > 0 && (line[0] == ' ' || line[0] == '\t') {
            match st.ent {
                None => ParseOutcome::Failed(num, "Component outside of entity block"@),
                Some(e) => match component_at(lines, i) {
                    Err((l, m)) => ParseOutcome::Failed(l, m),
                    Ok((name, value, n)) => {
                        proof {
                            lemma_component_lines(lines, i);
                        }
                        parse_from(
                        lines,
                        i + n,
                        ParseState {
                            world: st.world,
                            arch: st.arch,
                            ent: Some(EntityModel { index: e.index, comment: e.comment, components: e.components.push((name, value)) }),
                        },
                    )
                    },
                },
            }
        } else {
            ParseOutcome::Failed(num, "Unexpected content: "@ + t)
        }
    }
}

/// The state before the first line.
pub open spec fn initial_state() -> ParseState {
    ParseState { world: WorldModel { header: None, archetypes: Seq::empty(), entities: Seq::empty() }, arch: None, ent: None }
}

/// Parsing a text: its lines from the first on.
pub open spec fn spec_parse(input: Seq<char>) -> ParseOutcome {
    parse_from(lines_of(input), 0, initial_state())
}

/// The archetype block being read, as characters.
pub open spec fn arch_view(a: Option<SerializedArchetype>) -> Option<ArchetypeModel> {
    match a {
        Some(x) => Some(x@),
        None => None,
    }
}

/// The entity being read, as characters.
pub open spec fn ent_view(e: Option<SerializedEntity>) -> Option<EntityModel> {
    match e {
        Some(x) => Some(x@),
        None => None,
    }
}

/// The parser's state as characters.
pub open spec fn state_of(w: SerializedWorld, a: Option<SerializedArchetype>, e: Option<SerializedEntity>) -> ParseState {
    ParseState { world: w@, arch: arch_view(a), ent: ent_view(e) }
}

/// The lines as characters.
pub open spec fn lines_view(lines: Seq<Vec<char>>) -> Seq<Seq<char>> {
    lines.map_values(|l: Vec<char>| l@)
}

/// Whether a result is the given outcome: the world of a `Done`, the
/// parse error of a `Failed`.
pub open spec fn answers(r: Result<SerializedWorld, NimbusError>, o: ParseOutcome) -> bool {
    match o {
        ParseOutcome::Done(m) => r matches Ok(w) && w@ == m,
        ParseOutcome::Failed(l, msg) => r matches Err(NimbusError::Parse { line, message }) && line == l && message@ == msg,
        ParseOutcome::Panics => false,
    }
}

/// A string of characters.
fn text_of(prefix: &str, rest: &[char]) -> (r: String)
    ensures
        r@ == prefix@ + rest@,
{
    let mut out = prefix.to_owned();
    let mut i: usize = 0;
    while i < rest.len()
        invariant
            i <= rest@.len(),
            out@ == prefix@ + rest@.subrange(0, i as int),
        decreases rest@.len() - i,
    {
        push_char(&mut out, rest[i]);
        i = i + 1;
        proof {
            assert(out@ =~= prefix@ + rest@.subrange(0, i as int));
        }
    }
    proof {
        assert(rest@.subrange(0, i as int) =~= rest@);
    }
    out
}

/// A parse error at a line.
fn parse_error(line: usize, message: &str) -> (r: NimbusError)
    ensures
        r matches NimbusError::Parse { line: l, message: m } && l == line && m@ == message@,
{
    NimbusError::Parse { line, message: message.to_owned() }
}

/// The type names between the brackets of an `@archetype` line, from
/// position `s` up to `e`.
fn type_list(t: &Vec<char>, s: usize, e: usize) -> (r: Vec<String>)
    requires
        s <= e <= t@.len(),
    ensures
        r@.map_values(|x: String| x@) == type_names(split_on(t@.subrange(s as int, e as int), ',')),
{
    let mut out: Vec<String> = Vec::new();
    let mut cur: Vec<char> = Vec::new();
    let mut k = s;
    proof {
        assert(t@.subrange(s as int, s as int) =~= Seq::<char>::empty());
        assert(out@.map_values(|x: String| x@) =~= Seq::<Seq<char>>::empty());
    }
    while k < e
        invariant
            s <= k <= e <= t@.len(),
            out@.map_values(|x: String| x@) == type_names(split_on(t@.subrange(s as int, k as int), ',').drop_last()),
            cur@ == split_on(t@.subrange(s as int, k as int), ',').last(),
        decreases e - k,
    {
        let ghost sub = t@.subrange(s as int, k as int);
        let ghost p = split_on(sub, ',');
        proof {
            lemma_split_on_len(sub, ',');
            assert(t@.subrange(s as int, k as int + 1).drop_last() =~= sub);
        }
        let c = t[k];
        if c == ',' {
            let piece = trimmed(cur.as_slice());
            proof {
                assert(split_on(t@.subrange(s as int, k as int + 1), ',') == p.push(Seq::empty()));
                assert(p.push(Seq::<char>::empty()).drop_last() =~= p);
            }
            if piece.len() > 0 {
                let ghost before = out@;
                out.push(string_of(piece.as_slice()));
                proof {
                    assert(out@.map_values(|x: String| x@) =~= before.map_values(|x: String| x@).push(piece@));
                }
            }
            cur = Vec::new();
            proof {
                assert(cur@ =~= Seq::<char>::empty());
            }
        } else {
            cur.push(c);
            proof {
                let q = p.update(p.len() - 1, p.last().push(c));
                assert(split_on(t@.subrange(s as int, k as int + 1), ',') == q);
                assert(q.drop_last() =~= p.drop_last());
            }
        }
        k = k + 1;
    }
    proof {
        lemma_split_on_len(t@.subrange(s as int, e as int), ',');
    }
    let piece = trimmed(cur.as_slice());
    if piece.len() > 0 {
        let ghost before = out@;
        out.push(string_of(piece.as_slice()));
        proof {
            assert(out@.map_values(|x: String| x@) =~= before.map_values(|x: String| x@).push(piece@));
        }
    }
    out
}

/// The second whitespace-separated word of a line.
fn second_word_of(t: &Vec<char>) -> (r: Option<Vec<char>>)
    ensures
        match second_word(t@) {
            Some(w) => r matches Some(v) && v@ == w,
            None => r is None,
        },
{
    proof {
        lemma_skip_word(t@, 0);
        lemma_skip_ws(t@, skip_word(t@, 0));
    }
    let a = skip_word_from(t.as_slice(), 0);
    let b = skip_ws_from(t.as_slice(), a);
    if b < t.len() {
        proof {
            lemma_skip_word(t@, b as int);
        }
        let c = skip_word_from(t.as_slice(), b);
        Some(copy_range(t.as_slice(), b, c))
    } else {
        None
    }
}

/// Whether every line fits the limits of brace counting.
pub open spec fn lines_fit(lines: Seq<Seq<char>>) -> bool {
    &&& lines.len() <= i32::MAX
    &&& forall|k: int| 0 <= k < lines.len() ==> #[trigger] lines[k].len() <= i32::MAX
}

/// Reads the lines of a value that continues after line `start`, from the
/// value and depth that its first line gave.
fn continue_lines(lines: &Vec<Vec<char>>, start: usize, first: Vec<char>, first_depth: i32) -> (r: Option<(Vec<char>, usize)>)
    requires
        start < lines@.len(),
        lines_fit(lines_view(lines@)),
        first_depth != 0,
    ensures
        match continue_value(lines_view(lines@), start + 1, first_depth as int, first@, start as int) {
            Ok((v, n)) => r matches Some((rv, rn)) && rv@ == v && rn == n,
            Err(_) => r is None,
        },
{
    let ghost ls = lines_view(lines@);
    let mut value = first;
    let mut depth: i64 = first_depth as i64;
    let mut j = start + 1;
    while j < lines.len()
        invariant
            ls == lines_view(lines@),
            lines_fit(ls),
            start < j <= lines@.len(),
            depth != 0,
            -((j - start) * 0x8000_0000) <= depth <= (j - start) * 0x8000_0000,
            continue_value(ls, j as int, depth as int, value@, start as int) == continue_value(
                ls,
                start + 1,
                first_depth as int,
                first@,
                start as int,
            ),
        decreases lines@.len() - j,
    {
        proof {
            assert(ls[j as int] == lines@[j as int]@);
        }
        let next = trimmed(lines[j].as_slice());
        let ghost before = value@;
        value.push('\n');
        let mut k: usize = 0;
        while k < next.len()
            invariant
                k <= next@.len(),
                value@ == before + seq!['\n'] + next@.subrange(0, k as int),
            decreases next@.len() - k,
        {
            value.push(next[k]);
            k = k + 1;
            proof {
                assert(value@ =~= before + seq!['\n'] + next@.subrange(0, k as int));
            }
        }
        proof {
            assert(next@.subrange(0, k as int) =~= next@);
        }
        let d = count_braces(lines[j].as_slice());
        let ghost depth_before = depth as int;
        depth = depth + d as i64;
        if depth == 0 {
            return Some((value, j - start + 1));
        }
        j = j + 1;
    }
    None
}

/// Reads the component of line `start`: its type name, its value (over
/// several lines while its braces do not balance), and how many lines it
/// takes.
fn parse_component_value(lines: &Vec<Vec<char>>, start: usize) -> (r: Result<(String, String, usize), NimbusError>)
    requires
        start < lines@.len(),
        lines_fit(lines_view(lines@)),
    ensures
        match component_at(lines_view(lines@), start as int) {
            Ok((name, value, n)) => r matches Ok((rn, rv, rk)) && rn@ == name && rv@ == value && rk == n,
            Err((l, m)) => r matches Err(NimbusError::Parse { line, message }) && line == l && message@ == m,
        },
{
    let ghost ls = lines_view(lines@);
    proof {
        assert(ls[start as int] == lines@[start as int]@);
    }
    let line_num = start + 1;
    let first = trimmed(lines[start].as_slice());
    let found = find_char(first.as_slice(), ':');
    if found.is_none() {
        return Err(parse_error(line_num, "Expected ':' after component type name"));
    }
    let colon = found.unwrap();
    let first_len = first.len();
    let name_part = copy_range(first.as_slice(), 0, colon);
    let component_name = trimmed(name_part.as_slice());
    let value_part = copy_range(first.as_slice(), colon + 1, first_len);
    let first_value = trimmed(value_part.as_slice());
    proof {
        assert(first@.len() <= lines@[start as int]@.len());
    }
    let brace_depth = count_braces(first_value.as_slice());
    if brace_depth == 0 {
        return Ok((string_of(component_name.as_slice()), string_of(first_value.as_slice()), 1));
    }
    proof {
        lemma_continue_value(ls, start + 1, brace_depth as int, first_value@, start as int);
    }
    match continue_lines(lines, start, first_value, brace_depth) {
        Some((value, n)) => Ok((string_of(component_name.as_slice()), string_of(value.as_slice()), n)),
        None => Err(parse_error(line_num, "Unclosed braces in component value")),
    }
}

/// Whether line `i` is blank or a comment.
pub open spec fn skipped(t: Seq<char>) -> bool {
    t.len() == 0 || t[0] == '#'
}

/// Whether a line is indented.
pub open spec fn indented(line: Seq<char>) -> bool {
    line.len() > 0 && (line[0] == ' ' || line[0] == '\t')
}

/// Parsing ends with the world when no line is left.
proof fn lemma_parse_end(lv: Seq<Seq<char>>, i: int, st: ParseState)
    requires
        i >= lv.len(),
    ensures
        parse_from(lv, i, st) == ParseOutcome::Done(finish(st)),
{
    reveal(parse_from);
}

/// A blank or comment line is passed over.
proof fn lemma_parse_skip(lv: Seq<Seq<char>>, i: int, st: ParseState)
    requires
        0 <= i < lv.len(),
        skipped(trim(lv[i])),
    ensures
        parse_from(lv, i, st) == parse_from(lv, i + 1, st),
{
    reveal(parse_from);
}

/// An `@archetype` line.
proof fn lemma_parse_archetype(lv: Seq<Seq<char>>, i: int, st: ParseState)
    requires
        0 <= i < lv.len(),
        !skipped(trim(lv[i])),
        starts_with(trim(lv[i]), archetype_tag()),
    ensures
        parse_from(lv, i, st) == match archetype_line(trim(lv[i]), (i + 1) as nat) {
            None => ParseOutcome::Panics,
            Some(Err((l, m))) => ParseOutcome::Failed(l, m),
            Some(Ok(types)) => parse_from(
                lv,
                i + 1,
                ParseState { world: close_archetype(st), arch: Some(ArchetypeModel { types, entities: Seq::empty() }), ent: None },
            ),
        },
{
    reveal(parse_from);
}

/// An `@entity` line.
proof fn lemma_parse_entity(lv: Seq<Seq<char>>, i: int, st: ParseState)
    requires
        0 <= i < lv.len(),
        !skipped(trim(lv[i])),
        !starts_with(trim(lv[i]), archetype_tag()),
        starts_with(trim(lv[i]), entity_tag()),
    ensures
        parse_from(lv, i, st) == match second_word(trim(lv[i])) {
            None => ParseOutcome::Failed((i + 1) as nat, "Expected entity index after @entity"@),
            Some(w) => match parse_u32(w) {
                None => ParseOutcome::Failed((i + 1) as nat, "Invalid entity index: "@ + w),
                Some(index) => parse_from(
                    lv,
                    i + 1,
                    ParseState {
                        world: save_entity(st).world,
                        arch: save_entity(st).arch,
                        ent: Some(EntityModel { index, comment: None, components: Seq::empty() }),
                    },
                ),
            },
        },
{
    reveal(parse_from);
}

/// An indented component line.
proof fn lemma_parse_component(lv: Seq<Seq<char>>, i: int, st: ParseState)
    requires
        0 <= i < lv.len(),
        !skipped(trim(lv[i])),
        !starts_with(trim(lv[i]), archetype_tag()),
        !starts_with(trim(lv[i]), entity_tag()),
        indented(lv[i]),
    ensures
        parse_from(lv, i, st) == match st.ent {
            None => ParseOutcome::Failed((i + 1) as nat, "Component outside of entity block"@),
            Some(e) => match component_at(lv, i) {
                Err((l, m)) => ParseOutcome::Failed(l, m),
                Ok((name, value, n)) => parse_from(
                    lv,
                    i + n,
                    ParseState {
                        world: st.world,
                        arch: st.arch,
                        ent: Some(EntityModel { index: e.index, comment: e.comment, components: e.components.push((name, value)) }),
                    },
                ),
            },
        },
{
    reveal(parse_from);
}

/// Any other line is an error.
proof fn lemma_parse_other(lv: Seq<Seq<char>>, i: int, st: ParseState)
    requires
        0 <= i < lv.len(),
        !skipped(trim(lv[i])),
        !starts_with(trim(lv[i]), archetype_tag()),
        !starts_with(trim(lv[i]), entity_tag()),
        !indented(lv[i]),
    ensures
        parse_from(lv, i, st) == ParseOutcome::Failed((i + 1) as nat, "Unexpected content: "@ + trim(lv[i])),
{
    reveal(parse_from);
}

/// Whether an `@archetype` line reads without error or panic.
pub open spec fn archetype_ok(t: Seq<char>) -> bool {
    archetype_line(t, 0) matches Some(Ok(_))
}

/// The type names of an `@archetype` line that reads without error.
pub open spec fn archetype_types(t: Seq<char>) -> Seq<Seq<char>> {
    match archetype_line(t, 0) {
        Some(Ok(types)) => types,
        _ => Seq::empty(),
    }
}

/// The type name and value of a component line whose value is complete on
/// that line.
pub open spec fn line_component(l: Seq<char>) -> (Seq<char>, Seq<char>) {
    let first = trim(l);
    let c = first_pos(first, ':')->0;
    (trim(first.subrange(0, c)), trim(first.subrange(c + 1, first.len() as int)))
}

/// Whether a component line holds a `:` and a value complete on the line.
pub open spec fn single_component(l: Seq<char>) -> bool {
    first_pos(trim(l), ':') is Some && braces(line_component(l).1) == 0
}

/// Whether a line reads without error, panic or continuation lines.
pub open spec fn simple_line(l: Seq<char>, st: ParseState) -> bool {
    let t = trim(l);
    if skipped(t) {
        true
    } else if starts_with(t, archetype_tag()) {
        archetype_ok(t)
    } else if starts_with(t, entity_tag()) {
        second_word(t) matches Some(w) && parse_u32(w) is Some
    } else if indented(l) {
        st.ent is Some && single_component(l)
    } else {
        false
    }
}

/// The state after reading a line that reads without error.
pub open spec fn step_line(l: Seq<char>, st: ParseState) -> ParseState {
    let t = trim(l);
    if skipped(t) {
        st
    } else if starts_with(t, archetype_tag()) {
        ParseState {
            world: close_archetype(st),
            arch: Some(ArchetypeModel { types: archetype_types(t), entities: Seq::empty() }),
            ent: None,
        }
    } else if starts_with(t, entity_tag()) {
        ParseState {
            world: save_entity(st).world,
            arch: save_entity(st).arch,
            ent: Some(EntityModel { index: parse_u32(second_word(t)->0)->0, comment: None, components: Seq::empty() }),
        }
    } else {
        let e = st.ent->0;
        ParseState {
            world: st.world,
            arch: st.arch,
            ent: Some(EntityModel { index: e.index, comment: e.comment, components: e.components.push(line_component(l)) }),
        }
    }
}

/// A line that reads without error moves the reading one line on.
pub proof fn lemma_parse_simple(lv: Seq<Seq<char>>, i: int, st: ParseState)
    requires
        0 <= i < lv.len(),
        simple_line(lv[i], st),
    ensures
        parse_from(lv, i, st) == parse_from(lv, i + 1, step_line(lv[i], st)),
{
    let l = lv[i];
    let t = trim(l);
    if skipped(t) {
        lemma_parse_skip(lv, i, st);
    } else if starts_with(t, archetype_tag()) {
        lemma_parse_archetype(lv, i, st);
        let s0 = first_pos(t, '[')->0;
        let e0 = last_pos(t, ']')->0;
        assert(archetype_line(t, (i + 1) as nat) == Some(Ok::<Seq<Seq<char>>, (nat, Seq<char>)>(archetype_types(t))));
    } else if starts_with(t, entity_tag()) {
        lemma_parse_entity(lv, i, st);
    } else {
        lemma_parse_component(lv, i, st);
        let first = trim(l);
        let c = first_pos(first, ':')->0;
        let value = trim(first.subrange(c + 1, first.len() as int));
        assert(component_at(lv, i) == Ok::<(Seq<char>, Seq<char>, nat), (nat, Seq<char>)>((line_component(l).0, value, 1nat)));
    }
}

/// Reading lines one after another, each without error; `None` at the
/// first line that does not read so.
pub open spec fn run_lines(ls: Seq<Seq<char>>, st: ParseState) -> Option<ParseState>
    decreases ls.len(),
{
    if ls.len() == 0 {
        Some(st)
    } else {
        match run_lines(ls.drop_last(), st) {
            Some(s) => if simple_line(ls.last(), s) {
                Some(step_line(ls.last(), s))
            } else {
                None
            },
            None => None,
        }
    }
}

/// Lines that read without error move the reading past them.
pub proof fn lemma_parse_run(lv: Seq<Seq<char>>, i: int, ls: Seq<Seq<char>>, st: ParseState, end: ParseState)
    requires
        0 <= i,
        i + ls.len() <= lv.len(),
        lv.subrange(i, i + ls.len()) == ls,
        run_lines(ls, st) == Some(end),
    ensures
        parse_from(lv, i, st) == parse_from(lv, i + ls.len(), end),
    decreases ls.len(),
{
    if ls.len() > 0 {
        let prev = ls.drop_last();
        let mid = run_lines(prev, st)->0;
        assert(lv.subrange(i, i + prev.len()) =~= prev);
        lemma_parse_run(lv, i, prev, st, mid);
        assert(lv[i + prev.len()] == ls.last());
        lemma_parse_simple(lv, i + prev.len(), mid);
    }
}

/// Reading two runs of lines reads the first, then the second.
pub proof fn lemma_run_concat(a: Seq<Seq<char>>, b: Seq<Seq<char>>, st: ParseState)
    ensures
        run_lines(a + b, st) == match run_lines(a, st) {
            Some(s) => run_lines(b, s),
            None => None,
        },
    decreases b.len(),
{
    if b.len() == 0 {
        assert(a + b =~= a);
    } else {
        lemma_run_concat(a, b.drop_last(), st);
        assert((a + b).drop_last() =~= a + b.drop_last());
        assert((a + b).last() == b.last());
    }
}

/// Reading all lines, each without error, ends with the world of the
/// state they lead to.
pub proof fn lemma_parse_all(lv: Seq<Seq<char>>, end: ParseState)
    requires
        run_lines(lv, initial_state()) == Some(end),
    ensures
        parse_from(lv, 0, initial_state()) == ParseOutcome::Done(finish(end)),
{
    assert(lv.subrange(0, lv.len() as int) =~= lv);
    lemma_parse_run(lv, 0, lv, initial_state(), end);
    lemma_parse_end(lv, lv.len() as int, end);
}

/// Saves the entity being read into the block being read, or into the
/// world when no block is open.
fn save_current(world: &mut SerializedWorld, arch: &mut Option<SerializedArchetype>, ent: &mut Option<SerializedEntity>)
    ensures
        state_of(*final(world), *final(arch), *final(ent)) == save_entity(state_of(*old(world), *old(arch), *old(ent))),
{
    match ent.take() {
        Some(x) => {
            match arch.take() {
                Some(mut a) => {
                    let ghost b = a.entities@;
                    a.entities.push(x);
                    proof {
                        assert(a.entities@.map_values(|y: SerializedEntity| y@) =~= b.map_values(|y: SerializedEntity| y@).push(x@));
                    }
                    *arch = Some(a);
                },
                None => {
                    let ghost b = world.entities@;
                    world.entities.push(x);
                    proof {
                        assert(world.entities@.map_values(|y: SerializedEntity| y@) =~= b.map_values(|y: SerializedEntity| y@).push(x@));
                    }
                },
            }
        },
        None => {},
    }
}

/// Closes the block being read, with its entity, before a new block; with
/// no block open, the entity being read is dropped.
fn close_block(world: &mut SerializedWorld, arch: &mut Option<SerializedArchetype>, ent: &mut Option<SerializedEntity>)
    ensures
        final(world)@ == close_archetype(state_of(*old(world), *old(arch), *old(ent))),
        *final(arch) is None,
        *final(ent) is None,
{
    match arch.take() {
        Some(mut a) => {
            match ent.take() {
                Some(x) => {
                    let ghost b = a.entities@;
                    a.entities.push(x);
                    proof {
                        assert(a.entities@.map_values(|y: SerializedEntity| y@) =~= b.map_values(|y: SerializedEntity| y@).push(x@));
                    }
                },
                None => {},
            }
            let ghost wb = world.archetypes@;
            world.archetypes.push(a);
            proof {
                assert(world.archetypes@.map_values(|y: SerializedArchetype| y@) =~= wb.map_values(|y: SerializedArchetype| y@).push(a@));
            }
        },
        None => {},
    }
    *ent = None;
}

/// The world at the end of the input.
fn finish_world(world: SerializedWorld, arch: Option<SerializedArchetype>, ent: Option<SerializedEntity>) -> (r: SerializedWorld)
    ensures
        r@ == finish(state_of(world, arch, ent)),
{
    let mut world = world;
    let mut arch = arch;
    let mut ent = ent;
    save_current(&mut world, &mut arch, &mut ent);
    match arch {
        Some(a) => {
            let ghost wb = world.archetypes@;
            world.archetypes.push(a);
            proof {
                assert(world.archetypes@.map_values(|y: SerializedArchetype| y@) =~= wb.map_values(|y: SerializedArchetype| y@).push(a@));
            }
        },
        None => {},
    }
    world
}

/// The characters of a tag.
fn tag_chars(tag: &str) -> (r: Vec<char>)
    ensures
        r@ == tag@,
{
    chars_of(tag)
}

/// Parses lines of the format; `None` where reading them panics.
#[verifier::rlimit(40)]
fn parse_lines(lines: &Vec<Vec<char>>) -> (r: Option<Result<SerializedWorld, NimbusError>>)
    requires
        lines_fit(lines_view(lines@)),
    ensures
        match parse_from(lines_view(lines@), 0, initial_state()) {
            ParseOutcome::Panics => r is None,
            o => r matches Some(x) && answers(x, o),
        },
{
    let ghost lv = lines_view(lines@);
    let archetype_word = tag_chars("@archetype");
    let entity_word = tag_chars("@entity");
    proof {
        reveal_strlit("@archetype");
        reveal_strlit("@entity");
        assert(archetype_word@ =~= archetype_tag());
        assert(entity_word@ =~= entity_tag());
    }
    let mut world = SerializedWorld::new();
    let mut arch: Option<SerializedArchetype> = None;
    let mut ent: Option<SerializedEntity> = None;
    let mut i: usize = 0;
    proof {
        assert(state_of(world, arch, ent) == initial_state());
    }
    while i < lines.len()
        invariant
            lv == lines_view(lines@),
            lines_fit(lv),
            i <= lines@.len(),
            archetype_word@ == archetype_tag(),
            entity_word@ == entity_tag(),
            parse_from(lv, i as int, state_of(world, arch, ent)) == parse_from(lv, 0, initial_state()),
        decreases lines@.len() - i,
    {
        let ghost st = state_of(world, arch, ent);
        proof {
            assert(lv[i as int] == lines@[i as int]@);
        }
        let line = &lines[i];
        let t = trimmed(line.as_slice());
        let num = i + 1;
        if t.len() == 0 || t[0] == '#' {
            proof {
                lemma_parse_skip(lv, i as int, st);
            }
            i = i + 1;
        } else if begins_with(t.as_slice(), archetype_word.as_slice()) {
            proof {
                lemma_parse_archetype(lv, i as int, st);
            }
            let open = find_char(t.as_slice(), '[');
            if open.is_none() {
                return Some(Err(parse_error(num, "Expected '[' after @archetype")));
            }
            let close = rfind_char(t.as_slice(), ']');
            if close.is_none() {
                return Some(Err(parse_error(num, "Expected ']' in @archetype")));
            }
            let s = open.unwrap();
            let e = close.unwrap();
            if e < s + 1 {
                return None;
            }
            let types = type_list(&t, s + 1, e);
            close_block(&mut world, &mut arch, &mut ent);
            let fresh = SerializedArchetype { component_types: types, entities: Vec::new() };
            proof {
                assert(fresh.entities@.map_values(|y: SerializedEntity| y@) =~= Seq::<EntityModel>::empty());
            }
            arch = Some(fresh);
            i = i + 1;
        } else if begins_with(t.as_slice(), entity_word.as_slice()) {
            proof {
                lemma_parse_entity(lv, i as int, st);
            }
            save_current(&mut world, &mut arch, &mut ent);
            let word = second_word_of(&t);
            if word.is_none() {
                return Some(Err(parse_error(num, "Expected entity index after @entity")));
            }
            let w = word.unwrap();
            let index = parse_u32_chars(w.as_slice());
            if index.is_none() {
                return Some(Err(NimbusError::Parse { line: num, message: text_of("Invalid entity index: ", w.as_slice()) }));
            }
            let fresh = SerializedEntity { index: index.unwrap(), comment: None, components: Vec::new() };
            proof {
                assert(fresh.components@.map_values(|p: (String, String)| (p.0@, p.1@)) =~= Seq::<(Seq<char>, Seq<char>)>::empty());
            }
            ent = Some(fresh);
            i = i + 1;
        } else if line.len() > 0 && (line[0] == ' ' || line[0] == '\t') {
            proof {
                lemma_parse_component(lv, i as int, st);
            }
            match ent.take() {
                None => {
                    return Some(Err(parse_error(num, "Component outside of entity block")));
                },
                Some(mut x) => {
                    match parse_component_value(lines, i) {
                        Err(err) => {
                            return Some(Err(err));
                        },
                        Ok((name, value, n)) => {
                            proof {
                                lemma_component_lines(lv, i as int);
                            }
                            let ghost b = x.components@;
                            x.components.push((name, value));
                            proof {
                                assert(x.components@.map_values(|p: (String, String)| (p.0@, p.1@)) =~= b.map_values(
                                    |p: (String, String)| (p.0@, p.1@),
                                ).push((name@, value@)));
                            }
                            ent = Some(x);
                            i = i + n;
                        },
                    }
                },
            }
        } else {
            proof {
                lemma_parse_other(lv, i as int, st);
            }
            return Some(Err(NimbusError::Parse { line: num, message: text_of("Unexpected content: ", t.as_slice()) }));
        }
    }
    proof {
        lemma_parse_end(lv, i as int, state_of(world, arch, ent));
    }
    Some(Ok(finish_world(world, arch, ent)))
}

/// Reads scenes of the format.
pub struct NimbusDeserializer {
    pub format: TextFormat,
}

impl NimbusDeserializer {
    /// A deserializer of compact JSON values.
    pub fn new() -> (r: NimbusDeserializer)
        ensures
            r.format == TextFormat::Json,
    {
        Self::with_format(TextFormat::Json)
    }

    /// A deserializer of values in the given format.
    pub fn with_format(format: TextFormat) -> (r: NimbusDeserializer)
        ensures
            r.format == format,
    {
        NimbusDeserializer { format }
    }

    /// Parses a scene into its intermediate form, or says (`None`) that the
    /// input holds an `@archetype` line, reached before any error, whose
    /// last `]` comes before its first `[`: reading that line panics.
    pub fn try_parse(&self, input: &str) -> (r: Option<Result<SerializedWorld, NimbusError>>)
        requires
            input@.len() < i32::MAX,
        ensures
            match spec_parse(input@) {
                ParseOutcome::Panics => r is None,
                o => r matches Some(x) && answers(x, o),
            },
    {
        let chars = chars_of(input);
        let lines = split_lines(&chars);
        proof {
            lemma_lines_bounds(input@);
            assert(lines_view(lines@) =~= lines_of(input@));
        }
        parse_lines(&lines)
    }

    /// Parses a scene into its intermediate form: entities grouped under
    /// `@archetype` blocks, and entities outside any block; a component
    /// value whose braces do not balance on its line takes the following
    /// lines until they do. Errors name the line (counted from 1).
    pub fn parse(&self, input: &str) -> (r: Result<SerializedWorld, NimbusError>)
        requires
            input@.len() < i32::MAX,
            !(spec_parse(input@) is Panics),
        ensures
            answers(r, spec_parse(input@)),
    {
        match self.try_parse(input) {
            Some(r) => r,
            None => Ok(SerializedWorld::new()),
        }
    }
}

impl Default for NimbusDeserializer {
    fn default() -> (r: NimbusDeserializer)
        ensures
            r.format == TextFormat::Json,
    {
        Self::new()
    }
}

/// The hash table behind an [`EntityMap`], from file-local indices to
/// entities. The map is held opaquely: `hashbrown::HashMap` bounds its
/// allocator parameter by a trait of another crate, so the type itself
/// cannot be declared here.
#[verifier::external_body]
#[derive(Debug)]
struct IndexTable {
    table: hashbrown::HashMap<u32, Entity>,
}

/// What an index table holds.
pub uninterp spec fn index_table_entries(t: IndexTable) -> Map<u32, Entity>;

/// Creates a table with `hashbrown::HashMap::new`. The contract claims that
/// it holds no key.
#[verifier::external_body]
fn table_new() -> (r: IndexTable)
    ensures
        forall|k: u32| !index_table_entries(r).dom().contains(k),
{
    IndexTable { table: hashbrown::HashMap::new() }
}

/// Maps a key to a value with `hashbrown::HashMap::insert`. The contract
/// claims that the key then maps to the value, replacing any earlier value,
/// and that every other key keeps its value.
#[verifier::external_body]
fn table_insert(t: &mut IndexTable, key: u32, value: Entity)
    ensures
        index_table_entries(*final(t)) == index_table_entries(*old(t)).insert(key, value),
{
    t.table.insert(key, value);
}

/// Looks a key up with `hashbrown::HashMap::get`. The contract claims that
/// the result is the key's value, or `None` exactly when the key is absent.
#[verifier::external_body]
fn table_get(t: &IndexTable, key: u32) -> (r: Option<Entity>)
    ensures
        match r {
            Some(e) => index_table_entries(*t).dom().contains(key) && index_table_entries(*t)[key] == e,
            None => !index_table_entries(*t).dom().contains(key),
        },
{
    t.table.get(&key).copied()
}

/// Lists the key-value pairs with `hashbrown::HashMap::iter`. The contract
/// claims that each key comes once and that the pairs are exactly the
/// table's entries; the order, which depends on the table's hashing, is
/// left unsaid.
#[verifier::external_body]
fn table_pairs(t: &IndexTable) -> (r: Vec<(u32, Entity)>)
    ensures
        forall|i: int|
            0 <= i < r@.len() ==> index_table_entries(*t).dom().contains(#[trigger] r@[i].0) && index_table_entries(*t)[r@[i].0]
                == r@[i].1,
        forall|k: u32| index_table_entries(*t).dom().contains(k) ==> exists|i: int| 0 <= i < r@.len() && #[trigger] r@[i].0 == k,
        forall|i: int, j: int| 0 <= i < j < r@.len() ==> r@[i].0 != r@[j].0,
{
    t.table.iter().map(|(k, v)| (*k, *v)).collect()
}

/// Maps file-local entity indices to the entities of a world.
#[derive(Debug)]
pub struct EntityMap {
    map: IndexTable,
}

impl View for EntityMap {
    type V = Map<u32, Entity>;

    closed spec fn view(&self) -> Map<u32, Entity> {
        index_table_entries(self.map)
    }
}

impl EntityMap {
    /// An empty map.
    pub fn new() -> (r: EntityMap)
        ensures
            r@ == Map::<u32, Entity>::empty(),
    {
        let r = EntityMap { map: table_new() };
        proof {
            assert(r@ =~= Map::<u32, Entity>::empty());
        }
        r
    }

    /// Maps a file index to an entity, replacing what it mapped to.
    pub fn insert(&mut self, file_index: u32, entity: Entity)
        ensures
            final(self)@ == old(self)@.insert(file_index, entity),
    {
        table_insert(&mut self.map, file_index, entity);
    }

    /// The entity of a file index.
    pub fn get(&self, file_index: u32) -> (r: Option<Entity>)
        ensures
            r == (if self@.dom().contains(file_index) { Some(self@[file_index]) } else { None }),
    {
        table_get(&self.map, file_index)
    }

    /// The runtime entity of an entity as it was written: its index is the
    /// file index; `None` where that index was not in the file.
    pub fn remap(&self, serialized_entity: Entity) -> (r: Option<Entity>)
        ensures
            r == (if self@.dom().contains(serialized_entity.index) {
                Some(self@[serialized_entity.index])
            } else {
                None
            }),
    {
        table_get(&self.map, serialized_entity.index)
    }

    /// All mappings, each file index once, in no particular order.
    pub fn iter(&self) -> (r: Vec<(u32, Entity)>)
        ensures
            forall|i: int| 0 <= i < r@.len() ==> self@.dom().contains(#[trigger] r@[i].0) && self@[r@[i].0] == r@[i].1,
            forall|k: u32| self@.dom().contains(k) ==> exists|i: int| 0 <= i < r@.len() && #[trigger] r@[i].0 == k,
            forall|i: int, j: int| 0 <= i < j < r@.len() ==> r@[i].0 != r@[j].0,
    {
        table_pairs(&self.map)
    }
}

impl Default for EntityMap {
    fn default() -> (r: EntityMap)
        ensures
            r@ == Map::<u32, Entity>::empty(),
    {
        EntityMap::new()
    }
}

/// The file indices of entities, in order.
pub open spec fn entity_indices(es: Seq<EntityModel>) -> Seq<u32> {
    es.map_values(|e: EntityModel| e.index)
}

/// The file indices of the entities of archetype blocks, block by block.
pub open spec fn archetype_indices(arcs: Seq<ArchetypeModel>) -> Seq<u32>
    decreases arcs.len(),
{
    if arcs.len() == 0 {
        Seq::empty()
    } else {
        archetype_indices(arcs.drop_last()) + entity_indices(arcs.last().entities)
    }
}

/// The file indices of a parsed world in loading order: the entities of
/// the blocks, then those outside any block.
pub open spec fn file_indices(w: WorldModel) -> Seq<u32> {
    archetype_indices(w.archetypes) + entity_indices(w.entities)
}

/// The map from file indices to entities after mapping `idx[k]` to `es[k]`
/// in order: a later index replaces an earlier equal one.
pub open spec fn index_map(idx: Seq<u32>, es: Seq<Entity>) -> Map<u32, Entity>
    decreases idx.len(),
{
    if idx.len() == 0 {
        Map::empty()
    } else {
        index_map(idx.drop_last(), es).insert(idx.last(), es[idx.len() - 1])
    }
}

/// The file indices of entities, collected.
fn push_indices(out: &mut Vec<u32>, es: &Vec<SerializedEntity>)
    ensures
        final(out)@ == old(out)@ + entity_indices(es@.map_values(|e: SerializedEntity| e@)),
{
    let ghost start = out@;
    let ghost ev = es@.map_values(|e: SerializedEntity| e@);
    let mut k: usize = 0;
    while k < es.len()
        invariant
            k <= es@.len(),
            ev == es@.map_values(|e: SerializedEntity| e@),
            out@ == start + entity_indices(ev.subrange(0, k as int)),
        decreases es@.len() - k,
    {
        out.push(es[k].index);
        proof {
            assert(ev[k as int] == es@[k as int]@);
            assert(entity_indices(ev.subrange(0, k as int + 1)) =~= entity_indices(ev.subrange(0, k as int)).push(es@[k as int].index));
            assert(out@ =~= start + entity_indices(ev.subrange(0, k as int + 1)));
        }
        k = k + 1;
    }
    proof {
        assert(ev.subrange(0, k as int) =~= ev);
    }
}

/// The file indices of a parsed world in loading order.
fn collect_indices(parsed: &SerializedWorld) -> (r: Vec<u32>)
    ensures
        r@ == file_indices(parsed@),
{
    let ghost av = parsed@.archetypes;
    let mut out: Vec<u32> = Vec::new();
    let mut a: usize = 0;
    proof {
        assert(av.subrange(0, 0) =~= Seq::<ArchetypeModel>::empty());
        assert(out@ =~= archetype_indices(av.subrange(0, 0)));
    }
    while a < parsed.archetypes.len()
        invariant
            a <= parsed.archetypes@.len(),
            av == parsed@.archetypes,
            av.len() == parsed.archetypes@.len(),
            out@ == archetype_indices(av.subrange(0, a as int)),
        decreases parsed.archetypes@.len() - a,
    {
        push_indices(&mut out, &parsed.archetypes[a].entities);
        proof {
            assert(av[a as int] == parsed.archetypes@[a as int]@);
            let sub = av.subrange(0, a as int + 1);
            assert(sub.drop_last() =~= av.subrange(0, a as int));
        }
        a = a + 1;
    }
    proof {
        assert(av.subrange(0, a as int) =~= av);
    }
    push_indices(&mut out, &parsed.entities);
    out
}

impl NimbusDeserializer {
    /// The first step of loading a parsed world: spawns one empty entity for
    /// each parsed entity, those of the blocks first, and maps each file
    /// index to its entity (a repeated index maps to the last one). Returns
    /// the map and the spawned entities in loading order.
    pub fn load_entities<V>(&self, parsed: &SerializedWorld, world: &mut World<V>) -> (r: (EntityMap, Vec<Entity>))
        requires
            old(world).wf(),
            old(world).spawn_capacity() >= file_indices(parsed@).len(),
        ensures
            final(world).wf(),
            r.1@.len() == file_indices(parsed@).len(),
            forall|k: int| 0 <= k < r.1@.len() ==> !old(world)@.contains_key(#[trigger] r.1@[k]),
            forall|i: int, j: int| 0 <= i < j < r.1@.len() ==> r.1@[i] != r.1@[j],
            forall|x: Entity| #[trigger] final(world)@.contains_key(x) <==> (old(world)@.contains_key(x) || r.1@.contains(x)),
            forall|x: Entity| old(world)@.contains_key(x) ==> #[trigger] final(world)@[x] == old(world)@[x],
            forall|k: int| 0 <= k < r.1@.len() ==> #[trigger] final(world)@[r.1@[k]] == Map::<u64, V>::empty(),
            r.0@ == index_map(file_indices(parsed@), r.1@),
    {
        let indices = collect_indices(parsed);
        let n = indices.len();
        let mut bundles: Vec<Vec<(ComponentId, V)>> = Vec::new();
        let mut k: usize = 0;
        while k < n
            invariant
                k <= n,
                bundles@.len() == k,
                forall|j: int| 0 <= j < k ==> (#[trigger] bundles@[j])@ == Seq::<(ComponentId, V)>::empty(),
            decreases n - k,
        {
            bundles.push(Vec::new());
            k = k + 1;
        }
        let spawned = world.spawn_batch(bundles);
        let mut map = EntityMap::new();
        let mut k: usize = 0;
        proof {
            assert(indices@.subrange(0, 0) =~= Seq::<u32>::empty());
        }
        while k < n
            invariant
                k <= n,
                n == indices@.len(),
                spawned@.len() == n,
                map@ == index_map(indices@.subrange(0, k as int), spawned@),
            decreases n - k,
        {
            map.insert(indices[k], spawned[k]);
            proof {
                let sub = indices@.subrange(0, k as int + 1);
                assert(sub.drop_last() =~= indices@.subrange(0, k as int));
            }
            k = k + 1;
        }
        proof {
            assert(indices@.subrange(0, k as int) =~= indices@);
        }
        (map, spawned)
    }
}

} // verus!
