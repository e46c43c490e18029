//! Reading back a written scene: a scene written from blocks whose names
//! and values are plain parses into the blocks' archetypes, entities and
//! component texts.

use vstd::prelude::*;
use super::text::{
    split_on, lines_of, strip_cr, lemma_split_on_len, all_digits, digits_value, digit_value, is_ws, is_digit, trim, skip_ws,
    skip_word, trim_end_at, lemma_skip_ws, lemma_skip_word, lemma_trim_end_at, first_pos, last_pos, braces,
    starts_with, parse_u32, unsigned_part,
};
use super::scene::{
    decimal, digit_char, names_text, BlockModel, column_names, components_text, row_text, rows_text, block_text, blocks_text,
    scene_text, header_text, total_count, block_fits,
};
use super::nimbus::{
    run_lines, simple_line, step_line, lemma_run_concat, lemma_parse_all, save_entity, spec_parse, ParseOutcome,
    EntityModel, ArchetypeModel, WorldModel, ParseState, initial_state, close_archetype, finish,type_names, skipped, indented, single_component, line_component, archetype_tag, entity_tag, second_word, archetype_ok, archetype_types, archetype_line};

verus! {

/// Lines joined, each ended by a newline.
pub open spec fn join_lines(ls: Seq<Seq<char>>) -> Seq<char>
    decreases ls.len(),
{
    if ls.len() == 0 {
        Seq::empty()
    } else {
        join_lines(ls.drop_last()) + ls.last() + seq!['\n']
    }
}

/// Joining two runs of lines joins their texts.
pub proof fn lemma_join_concat(a: Seq<Seq<char>>, b: Seq<Seq<char>>)
    ensures
        join_lines(a + b) == join_lines(a) + join_lines(b),
    decreases b.len(),
{
    if b.len() == 0 {
        assert(a + b =~= a);
        assert(join_lines(a) + join_lines(b) =~= join_lines(a));
    } else {
        lemma_join_concat(a, b.drop_last());
        assert((a + b).drop_last() =~= a + b.drop_last());
        assert((a + b).last() == b.last());
        assert(join_lines(a + b) =~= join_lines(a) + join_lines(b));
    }
}

/// Appending text without separators extends the last piece.
pub proof fn lemma_split_append(s: Seq<char>, t: Seq<char>, sep: char)
    requires
        forall|k: int| 0 <= k < t.len() ==> t[k] != sep,
    ensures
        split_on(s + t, sep) == split_on(s, sep).update(
            split_on(s, sep).len() - 1,
            split_on(s, sep).last() + t,
        ),
    decreases t.len(),
{
    lemma_split_on_len(s, sep);
    if t.len() == 0 {
        assert(s + t =~= s);
        assert(split_on(s, sep).last() + t =~= split_on(s, sep).last());
        assert(split_on(s, sep).update(split_on(s, sep).len() - 1, split_on(s, sep).last()) =~= split_on(s, sep));
    } else {
        let t0 = t.drop_last();
        lemma_split_append(s, t0, sep);
        assert((s + t).drop_last() =~= s + t0);
        assert((s + t).last() == t.last());
        assert(t.last() != sep);
        lemma_split_on_len(s + t0, sep);
        let p = split_on(s, sep);
        let q = split_on(s + t0, sep);
        assert(split_on(s + t, sep) == q.update(q.len() - 1, q.last().push(t.last())));
        assert(q.len() == p.len());
        assert(q.last() == p.last() + t0);
        assert((p.last() + t0).push(t.last()) =~= p.last() + t);
        assert(split_on(s + t, sep) =~= p.update(p.len() - 1, p.last() + t));
    }
}

/// No character of a line is a newline, and the line does not end with a
/// carriage return.
pub open spec fn clean_line(l: Seq<char>) -> bool {
    &&& forall|k: int| 0 <= k < l.len() ==> l[k] != '\n'
    &&& !(l.len() > 0 && l.last() == '\r')
}

/// The pieces between newlines of joined lines are the lines, then an
/// empty piece.
pub proof fn lemma_split_join(ls: Seq<Seq<char>>)
    requires
        forall|i: int| 0 <= i < ls.len() ==> clean_line(#[trigger] ls[i]),
    ensures
        split_on(join_lines(ls), '\n') == ls.push(Seq::empty()),
    decreases ls.len(),
{
    if ls.len() == 0 {
        assert(split_on(Seq::<char>::empty(), '\n') =~= seq![Seq::<char>::empty()]);
        assert(ls.push(Seq::empty()) =~= seq![Seq::<char>::empty()]);
    } else {
        let prev = ls.drop_last();
        assert forall|i: int| 0 <= i < prev.len() implies clean_line(#[trigger] prev[i]) by {
            assert(prev[i] == ls[i]);
        }
        lemma_split_join(prev);
        let l = ls.last();
        assert(clean_line(ls[ls.len() - 1]));
        lemma_split_append(join_lines(prev), l, '\n');
        let p = split_on(join_lines(prev), '\n');
        assert(p == prev.push(Seq::empty()));
        assert(Seq::<char>::empty() + l =~= l);
        assert(p.update(p.len() - 1, p.last() + l) =~= ls);
        let s = join_lines(prev) + l;
        assert(join_lines(ls) =~= s.push('\n'));
        assert(s.push('\n').drop_last() =~= s);
        assert(s.push('\n').last() == '\n');
    }
}

/// The lines of joined clean lines are those lines.
pub proof fn lemma_lines_of_join(ls: Seq<Seq<char>>)
    requires
        forall|i: int| 0 <= i < ls.len() ==> clean_line(#[trigger] ls[i]),
    ensures
        lines_of(join_lines(ls)) == ls,
{
    lemma_split_join(ls);
    let p = ls.push(Seq::<char>::empty());
    assert(p.drop_last() =~= ls);
    assert forall|i: int| 0 <= i < ls.len() implies #[trigger] strip_cr(ls[i]) == ls[i] by {
        assert(clean_line(ls[i]));
    }
    assert(ls.map_values(|l: Seq<char>| strip_cr(l)) =~= ls);
}

/// The digits of a number are decimal digits whose value is the number.
pub proof fn lemma_decimal(n: nat)
    ensures
        decimal(n).len() > 0,
        all_digits(decimal(n)),
        digits_value(decimal(n)) == n,
        forall|k: int| 0 <= k < decimal(n).len() ==> !is_ws(#[trigger] decimal(n)[k]),
    decreases n,
{
    if n < 10 {
        assert(digit_value(digit_char(n)) == n);
        assert(decimal(n).drop_last() =~= Seq::<char>::empty());
        assert(decimal(n).last() == digit_char(n));
        assert(digits_value(decimal(n)) == digits_value(Seq::<char>::empty()) * 10 + digit_value(digit_char(n)));
    } else {
        lemma_decimal(n / 10);
        let d = digit_char((n % 10) as nat);
        assert(digit_value(d) == n % 10);
        assert(decimal(n).drop_last() =~= decimal(n / 10));
        assert(decimal(n).last() == d);
        assert(digits_value(decimal(n)) == digits_value(decimal(n / 10)) * 10 + digit_value(d));
        assert(n == (n / 10) * 10 + n % 10);
    }
}

/// Trimming keeps what lies between the first and the last
/// non-whitespace characters.
pub proof fn lemma_trim_between(l: Seq<char>, a: int, b: int)
    requires
        0 <= a < b <= l.len(),
        forall|k: int| 0 <= k < a ==> is_ws(#[trigger] l[k]),
        forall|k: int| b <= k < l.len() ==> is_ws(#[trigger] l[k]),
        !is_ws(l[a]),
        !is_ws(l[b - 1]),
    ensures
        trim(l) == l.subrange(a, b),
{
    lemma_skip_ws(l, 0);
    lemma_trim_end_at(l, l.len() as int);
    let x = skip_ws(l, 0);
    let y = trim_end_at(l, l.len() as int);
    if x < a {
        assert(is_ws(l[x]));
    }
    if x > a {
        assert(is_ws(l[a]));
    }
    if y < b {
        assert(is_ws(l[b - 1]));
    }
    if y > b {
        assert(is_ws(l[y - 1]));
    }
}

/// The first occurrence of a character, found.
pub proof fn lemma_first_pos_at(s: Seq<char>, c: char, k: int)
    requires
        0 <= k < s.len(),
        s[k] == c,
        forall|j: int| 0 <= j < k ==> s[j] != c,
    ensures
        first_pos(s, c) == Some(k),
{
    assert(s.contains(c));
    let p = choose|p: int| 0 <= p < s.len() && s[p] == c && forall|j: int| 0 <= j < p ==> s[j] != c;
    if p < k {
        assert(s[p] != c);
    }
    if p > k {
        assert(s[k] != c);
    }
}

/// The last occurrence of a character, found.
pub proof fn lemma_last_pos_at(s: Seq<char>, c: char, k: int)
    requires
        0 <= k < s.len(),
        s[k] == c,
        forall|j: int| k < j < s.len() ==> s[j] != c,
    ensures
        last_pos(s, c) == Some(k),
{
    assert(s.contains(c));
    let p = choose|p: int| 0 <= p < s.len() && s[p] == c && forall|j: int| p < j < s.len() ==> s[j] != c;
    if p < k {
        assert(s[k] != c);
    }
    if p > k {
        assert(s[p] != c);
    }
}

/// A word from `k` up to `j`.
pub proof fn lemma_skip_word_at(s: Seq<char>, k: int, j: int)
    requires
        0 <= k <= j <= s.len(),
        forall|i: int| k <= i < j ==> !is_ws(#[trigger] s[i]),
        j < s.len() ==> is_ws(s[j]),
    ensures
        skip_word(s, k) == j,
{
    lemma_skip_word(s, k);
    let r = skip_word(s, k);
    if r < j {
        assert(!is_ws(s[r]));
    }
    if r > j {
        assert(!is_ws(s[j]));
    }
}

/// Whitespace from `k` up to `j`.
pub proof fn lemma_skip_ws_at(s: Seq<char>, k: int, j: int)
    requires
        0 <= k <= j <= s.len(),
        forall|i: int| k <= i < j ==> is_ws(#[trigger] s[i]),
        j < s.len() ==> !is_ws(s[j]),
    ensures
        skip_ws(s, k) == j,
{
    lemma_skip_ws(s, k);
    let r = skip_ws(s, k);
    if r < j {
        assert(is_ws(s[r]));
    }
    if r > j {
        assert(is_ws(s[j]));
    }
}

/// A plain component name: not empty, without whitespace, commas or
/// colons, and not starting with `#` or `@`.
pub open spec fn plain_name(n: Seq<char>) -> bool {
    &&& n.len() > 0
    &&& n[0] != '#'
    &&& n[0] != '@'
    &&& forall|k: int| 0 <= k < n.len() ==> !is_ws(#[trigger] n[k]) && n[k] != ',' && n[k] != ':'
}

/// A plain value: trimmed, on one line, with balanced braces.
pub open spec fn plain_value(v: Seq<char>) -> bool {
    &&& trim(v) == v
    &&& braces(v) == 0
    &&& forall|k: int| 0 <= k < v.len() ==> #[trigger] v[k] != '\n'
}

/// A trimmed text that is not empty starts and ends with non-whitespace.
pub proof fn lemma_trimmed_ends(v: Seq<char>)
    requires
        trim(v) == v,
        v.len() > 0,
    ensures
        !is_ws(v[0]),
        !is_ws(v[v.len() - 1]),
{
    lemma_skip_ws(v, 0);
    lemma_trim_end_at(v, v.len() as int);
    let a = skip_ws(v, 0);
    let b = trim_end_at(v, v.len() as int);
    assert(a < b);
    assert(v.subrange(a, b).len() == v.len());
}

/// A text without whitespace is its own trim.
pub proof fn lemma_trim_solid(n: Seq<char>)
    requires
        n.len() > 0,
        forall|k: int| 0 <= k < n.len() ==> !is_ws(#[trigger] n[k]),
    ensures
        trim(n) == n,
{
    lemma_trim_between(n, 0, n.len() as int);
    assert(n.subrange(0, n.len() as int) =~= n);
}

/// The pieces between the commas of joined names: the first name, then
/// each other name after a space.
pub open spec fn name_pieces(names: Seq<Seq<char>>) -> Seq<Seq<char>> {
    Seq::new(names.len(), |i: int| if i == 0 { names[0] } else { seq![' '] + names[i] })
}

/// Splitting joined plain names at commas gives their pieces.
pub proof fn lemma_split_names(names: Seq<Seq<char>>)
    requires
        names.len() > 0,
        forall|i: int| 0 <= i < names.len() ==> plain_name(#[trigger] names[i]),
    ensures
        split_on(names_text(names), ',') == name_pieces(names),
    decreases names.len(),
{
    reveal_strlit(", ");
    if names.len() == 1 {
        assert(plain_name(names[0]));
        lemma_split_append(Seq::empty(), names[0], ',');
        assert(Seq::<char>::empty() + names[0] =~= names[0]);
        assert(split_on(Seq::<char>::empty(), ',') =~= seq![Seq::<char>::empty()]);
        assert(names_text(names) == names[0]);
        assert(name_pieces(names) =~= seq![names[0]]);
    } else {
        let prev = names.drop_last();
        assert forall|i: int| 0 <= i < prev.len() implies plain_name(#[trigger] prev[i]) by {
            assert(prev[i] == names[i]);
        }
        lemma_split_names(prev);
        let x = names_text(prev);
        let last = names.last();
        assert(plain_name(names[names.len() - 1]));
        let tail = seq![' '] + last;
        assert forall|k: int| 0 <= k < tail.len() implies tail[k] != ',' by {
            if k > 0 {
                assert(tail[k] == last[k - 1]);
            }
        }
        assert(names_text(names) =~= x.push(',') + tail);
        assert(x.push(',').drop_last() =~= x);
        assert(split_on(x.push(','), ',') == split_on(x, ',').push(Seq::empty()));
        lemma_split_append(x.push(','), tail, ',');
        assert(Seq::<char>::empty() + tail =~= tail);
        assert(split_on(x, ',').push(Seq::empty()).update(prev.len() as int, Seq::<char>::empty() + tail) =~= name_pieces(names));
    }
}

/// The trimmed non-empty pieces of joined plain names are the names.
pub proof fn lemma_type_names_pieces(names: Seq<Seq<char>>)
    requires
        forall|i: int| 0 <= i < names.len() ==> plain_name(#[trigger] names[i]),
    ensures
        type_names(name_pieces(names)) == names,
    decreases names.len(),
{
    if names.len() > 0 {
        let prev = names.drop_last();
        assert forall|i: int| 0 <= i < prev.len() implies plain_name(#[trigger] prev[i]) by {
            assert(prev[i] == names[i]);
        }
        lemma_type_names_pieces(prev);
        assert(name_pieces(names).drop_last() =~= name_pieces(prev));
        let last = names.last();
        assert(plain_name(names[names.len() - 1]));
        lemma_trim_solid(last);
        let piece = name_pieces(names).last();
        if names.len() == 1 {
            assert(piece == last);
        } else {
            assert(piece == seq![' '] + last);
            lemma_trim_between(piece, 1, piece.len() as int);
            assert(piece.subrange(1, piece.len() as int) =~= last);
        }
        assert(trim(piece) == last);
        assert(names =~= prev.push(last));
    }
}

/// A text that starts with a prefix has the prefix's first character.
proof fn lemma_starts_first(t: Seq<char>, p: Seq<char>)
    requires
        starts_with(t, p),
        p.len() > 0,
    ensures
        t.len() > 0 && t[0] == p[0],
{
    assert(t.subrange(0, p.len() as int)[0] == t[0]);
}

/// A component line `    Name: value` of a plain name and value reads as
/// that name and value.
pub proof fn lemma_component_line(name: Seq<char>, value: Seq<char>)
    requires
        plain_name(name),
        plain_value(value),
    ensures
        ({
            let l = "    "@ + name + ": "@ + value;
            &&& clean_line(l)
            &&& !skipped(trim(l))
            &&& !starts_with(trim(l), archetype_tag())
            &&& !starts_with(trim(l), entity_tag())
            &&& indented(l)
            &&& single_component(l)
            &&& line_component(l) == (name, value)
        }),
{
    reveal_strlit("    ");
    reveal_strlit(": ");
    let l = "    "@ + name + ": "@ + value;
    let n = name.len() as int;
    let m = value.len() as int;
    assert(l.len() == 6 + n + m);
    assert forall|k: int| 0 <= k < 4 implies l[k] == ' ' by {
    }
    assert forall|k: int| 0 <= k < n implies #[trigger] l[4 + k] == name[k] by {
    }
    assert(l[4 + n] == ':');
    assert(l[5 + n] == ' ');
    assert forall|k: int| 0 <= k < m implies #[trigger] l[6 + n + k] == value[k] by {
    }
    let b = if m > 0 { 6 + n + m } else { 5 + n };
    if m > 0 {
        lemma_trimmed_ends(value);
        assert(l[b - 1] == value[m - 1]);
    }
    assert(!is_ws(l[4])) by {
        assert(l[4int] == name[0]);
    }
    assert forall|k: int| 0 <= k < 4 implies is_ws(#[trigger] l[k]) by {
        assert(l[k] == ' ');
    }
    assert forall|k: int| b <= k < l.len() implies is_ws(#[trigger] l[k]) by {
        assert(m == 0 && k == 5 + n);
    }
    lemma_trim_between(l, 4, b);
    let first = l.subrange(4, b);
    assert(trim(l) == first);
    assert(first[0] == name[0]);
    assert forall|k: int| 0 <= k < n implies #[trigger] first[k] != ':' by {
        assert(first[k] == l[4 + k]);
        assert(l[4 + k] == name[k]);
    }
    assert(first[n] == ':');
    lemma_first_pos_at(first, ':', n);
    assert(first.subrange(0, n) =~= name);
    lemma_trim_solid(name);
    let rest = first.subrange(n + 1, first.len() as int);
    if m > 0 {
        assert(rest =~= seq![' '] + value);
        lemma_trimmed_ends(value);
        lemma_trim_between(rest, 1, rest.len() as int);
        assert(rest.subrange(1, rest.len() as int) =~= value);
    } else {
        assert(rest =~= Seq::<char>::empty());
        assert(value =~= Seq::<char>::empty());
    }
    assert(line_component(l) == (name, value));
    if starts_with(first, archetype_tag()) {
        lemma_starts_first(first, archetype_tag());
    }
    if starts_with(first, entity_tag()) {
        lemma_starts_first(first, entity_tag());
    }
    assert forall|k: int| 0 <= k < l.len() implies l[k] != '\n' by {
        if 4 <= k < 4 + n {
            assert(l[k] == name[k - 4]);
        } else if 6 + n <= k {
            assert(l[k] == value[k - 6 - n]);
        }
    }
    if m > 0 {
        assert(l.last() == value[m - 1]);
    } else {
        assert(l.last() == ' ');
    }
}

/// An entity line `  @entity N` reads as the index `N`.
pub proof fn lemma_entity_line(index: nat)
    requires
        index <= u32::MAX,
    ensures
        ({
            let l = "  @entity "@ + decimal(index);
            &&& clean_line(l)
            &&& !skipped(trim(l))
            &&& !starts_with(trim(l), archetype_tag())
            &&& starts_with(trim(l), entity_tag())
            &&& second_word(trim(l)) == Some(decimal(index))
            &&& parse_u32(decimal(index)) == Some(index as u32)
        }),
{
    reveal_strlit("  @entity ");
    lemma_decimal(index);
    let d = decimal(index);
    let l = "  @entity "@ + d;
    let m = d.len() as int;
    assert(l.len() == 10 + m);
    assert forall|k: int| 0 <= k < m implies #[trigger] l[10 + k] == d[k] by {
    }
    assert(!is_ws(l[2]));
    assert forall|k: int| 0 <= k < 2 implies is_ws(#[trigger] l[k]) by {
    }
    assert(l[l.len() - 1] == d[m - 1]);
    lemma_trim_between(l, 2, l.len() as int);
    let t = l.subrange(2, l.len() as int);
    assert(trim(l) == t);
    assert(t.len() == 8 + m);
    assert forall|k: int| 0 <= k < m implies #[trigger] t[8 + k] == d[k] by {
        assert(t[8 + k] == l[10 + k]);
    }
    assert(t.subrange(0, 7) =~= entity_tag());
    assert(t[0] == '@');
    assert(t[1] == 'e');
    if starts_with(t, archetype_tag()) {
        assert(t.subrange(0, 10)[1] == t[1]);
    }
    assert forall|k: int| 0 <= k < 7 implies !is_ws(#[trigger] t[k]) by {
        assert(t[k] == entity_tag()[k]);
    }
    assert(is_ws(t[7]));
    lemma_skip_word_at(t, 0, 7);
    assert(!is_ws(t[8])) by {
        assert(t[8int] == d[0]);
    }
    assert forall|k: int| 7 <= k < 8 implies is_ws(#[trigger] t[k]) by {
    }
    lemma_skip_ws_at(t, 7, 8);
    assert forall|k: int| 8 <= k < t.len() implies !is_ws(#[trigger] t[k]) by {
        assert(t[k] == d[k - 8]);
    }
    lemma_skip_word_at(t, 8, t.len() as int);
    assert(t.subrange(8, t.len() as int) =~= d);
    assert(second_word(t) == Some(d));
    assert(is_digit(d[0]));
    assert(unsigned_part(d) == d);
    assert forall|k: int| 0 <= k < l.len() implies l[k] != '\n' by {
        if k >= 10 {
            assert(l[k] == d[k - 10]);
            assert(is_digit(d[k - 10]));
        }
    }
    assert(is_digit(d[m - 1]));
}

/// Joined plain names hold no newline.
pub proof fn lemma_names_text_clean(names: Seq<Seq<char>>)
    requires
        forall|i: int| 0 <= i < names.len() ==> plain_name(#[trigger] names[i]),
    ensures
        forall|k: int| 0 <= k < names_text(names).len() ==> #[trigger] names_text(names)[k] != '\n',
    decreases names.len(),
{
    reveal_strlit(", ");
    if names.len() > 1 {
        let prev = names.drop_last();
        assert forall|i: int| 0 <= i < prev.len() implies plain_name(#[trigger] prev[i]) by {
            assert(prev[i] == names[i]);
        }
        lemma_names_text_clean(prev);
        let x = names_text(prev);
        let last = names.last();
        assert(plain_name(names[names.len() - 1]));
        assert forall|k: int| 0 <= k < names_text(names).len() implies #[trigger] names_text(names)[k] != '\n' by {
            if k < x.len() {
                assert(names_text(names)[k] == x[k]);
            } else if k >= x.len() + 2 {
                assert(names_text(names)[k] == last[k - x.len() - 2]);
            }
        }
    } else if names.len() == 1 {
        assert(plain_name(names[0]));
    }
}

/// An `@archetype [A, B]` line of plain names reads as those names.
pub proof fn lemma_archetype_line(names: Seq<Seq<char>>)
    requires
        names.len() > 0,
        forall|i: int| 0 <= i < names.len() ==> plain_name(#[trigger] names[i]),
    ensures
        ({
            let l = "@archetype ["@ + names_text(names) + "]"@;
            &&& clean_line(l)
            &&& trim(l) == l
            &&& !skipped(l)
            &&& starts_with(l, archetype_tag())
            &&& archetype_ok(l)
            &&& archetype_types(l) == names
        }),
{
    reveal_strlit("@archetype [");
    reveal_strlit("]");
    let x = names_text(names);
    let l = "@archetype ["@ + x + "]"@;
    let n = x.len() as int;
    assert(l.len() == 13 + n);
    assert forall|k: int| 0 <= k < n implies #[trigger] l[12 + k] == x[k] by {
    }
    assert(l[12 + n] == ']');
    assert(!is_ws(l[0]));
    assert(!is_ws(l[l.len() - 1]));
    lemma_trim_between(l, 0, l.len() as int);
    assert(l.subrange(0, l.len() as int) =~= l);
    assert(l.subrange(0, 10) =~= archetype_tag());
    assert forall|k: int| 0 <= k < 11 implies l[k] != '[' by {
    }
    lemma_first_pos_at(l, '[', 11);
    lemma_last_pos_at(l, ']', 12 + n);
    assert(l.subrange(12, 12 + n) =~= x);
    lemma_split_names(names);
    lemma_type_names_pieces(names);
    lemma_names_text_clean(names);
    assert(archetype_line(l, 0) == Some(Ok::<Seq<Seq<char>>, (nat, Seq<char>)>(names)));
    assert forall|k: int| 0 <= k < l.len() implies l[k] != '\n' by {
        if 12 <= k < 12 + n {
            assert(l[k] == x[k - 12]);
        }
    }
}

/// A comment line or an empty line is passed over.
pub proof fn lemma_header_lines()
    ensures
        forall|i: int| 0 <= i < header_lines().len() ==> clean_line(#[trigger] header_lines()[i]) && skipped(trim(header_lines()[i])),
{
    reveal_strlit("# Nimbus Scene Format v1");
    reveal_strlit("# Generated by nimbus_ecs");
    let a = "# Nimbus Scene Format v1"@;
    let b = "# Generated by nimbus_ecs"@;
    lemma_trim_between(a, 0, a.len() as int);
    lemma_trim_between(b, 0, b.len() as int);
    assert(a.subrange(0, a.len() as int) =~= a);
    assert(b.subrange(0, b.len() as int) =~= b);
    assert(trim(Seq::<char>::empty()) =~= Seq::<char>::empty());
}

/// The first lines of every scene.
pub open spec fn header_lines() -> Seq<Seq<char>> {
    seq!["# Nimbus Scene Format v1"@, "# Generated by nimbus_ecs"@, Seq::empty()]
}

/// The line of an entity.
pub open spec fn entity_line(index: nat) -> Seq<char> {
    "  @entity "@ + decimal(index)
}

/// The line of a component of a row.
pub open spec fn component_line(b: BlockModel, row: int, c: int) -> Seq<char> {
    "    "@ + b.columns[c].name + ": "@ + b.columns[c].values[row]
}

/// The lines of the first `k` components of a row.
pub open spec fn component_lines(b: BlockModel, row: int, k: int) -> Seq<Seq<char>>
    decreases k,
{
    if k <= 0 {
        Seq::empty()
    } else {
        component_lines(b, row, k - 1).push(component_line(b, row, k - 1))
    }
}

/// The lines of an entity.
pub open spec fn row_lines(b: BlockModel, index: nat, row: int) -> Seq<Seq<char>> {
    seq![entity_line(index)] + component_lines(b, row, b.columns.len() as int)
}

/// The lines of the first `n` entities of a block.
pub open spec fn rows_lines(b: BlockModel, first: nat, n: nat) -> Seq<Seq<char>>
    decreases n,
{
    if n == 0 {
        Seq::empty()
    } else {
        rows_lines(b, first, (n - 1) as nat) + row_lines(b, (first + n - 1) as nat, n - 1)
    }
}

/// The `@archetype` line of a block.
pub open spec fn archetype_text(b: BlockModel) -> Seq<char> {
    "@archetype ["@ + names_text(column_names(b.columns)) + "]"@
}

/// The lines of a block: none for a block that is not written.
pub open spec fn block_lines(b: BlockModel, first: nat) -> Seq<Seq<char>> {
    if b.count == 0 || b.columns.len() == 0 {
        Seq::empty()
    } else {
        seq![archetype_text(b)] + rows_lines(b, first, b.count) + seq![Seq::<char>::empty()]
    }
}

/// The lines of the blocks.
pub open spec fn blocks_lines(bs: Seq<BlockModel>) -> Seq<Seq<char>>
    decreases bs.len(),
{
    if bs.len() == 0 {
        Seq::empty()
    } else {
        blocks_lines(bs.drop_last()) + block_lines(bs.last(), total_count(bs.drop_last()))
    }
}

/// The lines of a scene.
pub open spec fn scene_lines(bs: Seq<BlockModel>) -> Seq<Seq<char>> {
    header_lines() + blocks_lines(bs)
}

/// One line joined.
proof fn lemma_join_one(l: Seq<char>)
    ensures
        join_lines(seq![l]) == l + seq!['\n'],
{
    let one = seq![l];
    assert(one.drop_last() =~= Seq::<Seq<char>>::empty());
    assert(one.last() == l);
    assert(join_lines(Seq::<Seq<char>>::empty()) == Seq::<char>::empty());
    assert(join_lines(one) == join_lines(one.drop_last()) + one.last() + seq!['\n']);
    assert(Seq::<char>::empty() + l =~= l);
}

/// The component lines of a row joined are its component text.
proof fn lemma_components_joined(b: BlockModel, row: int, k: int)
    ensures
        components_text(b, row, k) == join_lines(component_lines(b, row, k)),
    decreases k,
{
    reveal_strlit("\n");
    if k > 0 {
        lemma_components_joined(b, row, k - 1);
        let cl = component_lines(b, row, k);
        assert(cl.drop_last() =~= component_lines(b, row, k - 1));
        assert(cl.last() == component_line(b, row, k - 1));
        assert(components_text(b, row, k) =~= join_lines(cl));
    }
}

/// The rows of a block joined are its row text.
proof fn lemma_rows_joined(b: BlockModel, first: nat, n: nat)
    ensures
        rows_text(b, first, n) == join_lines(rows_lines(b, first, n)),
    decreases n,
{
    reveal_strlit("\n");
    if n > 0 {
        lemma_rows_joined(b, first, (n - 1) as nat);
        let index = (first + n - 1) as nat;
        let row = n - 1;
        lemma_components_joined(b, row, b.columns.len() as int);
        lemma_join_one(entity_line(index));
        lemma_join_concat(seq![entity_line(index)], component_lines(b, row, b.columns.len() as int));
        assert(row_text(b, index, row) =~= join_lines(row_lines(b, index, row)));
        lemma_join_concat(rows_lines(b, first, (n - 1) as nat), row_lines(b, index, row));
    }
}

/// The lines of a block joined are its text.
proof fn lemma_block_joined(b: BlockModel, first: nat)
    ensures
        block_text(b, first) == join_lines(block_lines(b, first)),
{
    reveal_strlit("\n");
    reveal_strlit("]");
    reveal_strlit("]\n");
    if !(b.count == 0 || b.columns.len() == 0) {
        let a = seq![archetype_text(b)];
        let r = rows_lines(b, first, b.count);
        let e = seq![Seq::<char>::empty()];
        lemma_rows_joined(b, first, b.count);
        lemma_join_one(archetype_text(b));
        lemma_join_one(Seq::<char>::empty());
        lemma_join_concat(a, r);
        lemma_join_concat(a + r, e);
        assert(Seq::<char>::empty() + seq!['\n'] =~= seq!['\n']);
        assert(block_text(b, first) =~= join_lines(a + r + e));
    } else {
        assert(join_lines(Seq::<Seq<char>>::empty()) =~= Seq::<char>::empty());
    }
}

/// The lines of the blocks joined are their text.
proof fn lemma_blocks_joined(bs: Seq<BlockModel>)
    ensures
        blocks_text(bs) == join_lines(blocks_lines(bs)),
    decreases bs.len(),
{
    if bs.len() > 0 {
        lemma_blocks_joined(bs.drop_last());
        lemma_block_joined(bs.last(), total_count(bs.drop_last()));
        lemma_join_concat(blocks_lines(bs.drop_last()), block_lines(bs.last(), total_count(bs.drop_last())));
    }
}

/// The lines of a scene joined are its text.
pub proof fn lemma_scene_joined(bs: Seq<BlockModel>)
    ensures
        scene_text(bs) == join_lines(scene_lines(bs)),
{
    reveal_strlit("# Nimbus Scene Format v1");
    reveal_strlit("# Generated by nimbus_ecs");
    reveal_strlit("# Nimbus Scene Format v1\n# Generated by nimbus_ecs\n\n");
    let h = header_lines();
    let a = "# Nimbus Scene Format v1"@;
    let b = "# Generated by nimbus_ecs"@;
    let h1 = seq![a];
    let h2 = seq![a, b];
    assert(h.drop_last() =~= h2);
    assert(h2.drop_last() =~= h1);
    lemma_join_one(a);
    assert(join_lines(h2) == join_lines(h1) + b + seq!['\n']);
    assert(join_lines(h) == join_lines(h2) + Seq::<char>::empty() + seq!['\n']);
    assert(header_text() =~= join_lines(h));
    lemma_blocks_joined(bs);
    lemma_join_concat(h, blocks_lines(bs));
}

/// A block with a value for each row in each column, plain names and
/// plain values.
pub open spec fn plain_block(b: BlockModel) -> bool {
    &&& block_fits(b)
    &&& forall|c: int| 0 <= c < b.columns.len() ==> plain_name(#[trigger] b.columns[c].name)
    &&& forall|c: int, r: int| 0 <= c < b.columns.len() && 0 <= r < b.count ==> plain_value(#[trigger] b.columns[c].values[r])
}

/// Every line is clean.
pub open spec fn all_clean(ls: Seq<Seq<char>>) -> bool {
    forall|i: int| 0 <= i < ls.len() ==> clean_line(#[trigger] ls[i])
}

/// Clean runs of lines make a clean run.
proof fn lemma_clean_concat(a: Seq<Seq<char>>, b: Seq<Seq<char>>)
    requires
        all_clean(a),
        all_clean(b),
    ensures
        all_clean(a + b),
{
    assert forall|i: int| 0 <= i < (a + b).len() implies clean_line(#[trigger] (a + b)[i]) by {
        if i < a.len() {
            assert((a + b)[i] == a[i]);
        } else {
            assert((a + b)[i] == b[i - a.len()]);
        }
    }
}

/// The component lines of a row of a plain block are clean.
proof fn lemma_components_clean(b: BlockModel, row: int, k: int)
    requires
        plain_block(b),
        0 <= row < b.count,
        k <= b.columns.len(),
    ensures
        all_clean(component_lines(b, row, k)),
    decreases k,
{
    if k > 0 {
        lemma_components_clean(b, row, k - 1);
        assert(plain_name(b.columns[k - 1].name));
        assert(plain_value(b.columns[k - 1].values[row]));
        lemma_component_line(b.columns[k - 1].name, b.columns[k - 1].values[row]);
        lemma_clean_concat(component_lines(b, row, k - 1), seq![component_line(b, row, k - 1)]);
        assert(component_lines(b, row, k - 1).push(component_line(b, row, k - 1)) =~= component_lines(b, row, k - 1) + seq![
            component_line(b, row, k - 1),
        ]);
    }
}

/// The rows of a plain block are clean.
proof fn lemma_rows_clean(b: BlockModel, first: nat, n: nat)
    requires
        plain_block(b),
        n <= b.count,
        first + n <= u32::MAX + 1,
    ensures
        all_clean(rows_lines(b, first, n)),
    decreases n,
{
    if n > 0 {
        lemma_rows_clean(b, first, (n - 1) as nat);
        lemma_entity_line((first + n - 1) as nat);
        lemma_components_clean(b, n - 1, b.columns.len() as int);
        lemma_clean_concat(seq![entity_line((first + n - 1) as nat)], component_lines(b, n - 1, b.columns.len() as int));
        lemma_clean_concat(rows_lines(b, first, (n - 1) as nat), row_lines(b, (first + n - 1) as nat, n - 1));
    }
}

/// The lines of plain blocks are clean.
proof fn lemma_blocks_clean(bs: Seq<BlockModel>)
    requires
        forall|k: int| 0 <= k < bs.len() ==> plain_block(#[trigger] bs[k]),
        total_count(bs) <= u32::MAX,
    ensures
        all_clean(blocks_lines(bs)),
    decreases bs.len(),
{
    if bs.len() > 0 {
        let prev = bs.drop_last();
        assert forall|k: int| 0 <= k < prev.len() implies plain_block(#[trigger] prev[k]) by {
            assert(prev[k] == bs[k]);
        }
        lemma_blocks_clean(prev);
        let b = bs.last();
        assert(plain_block(bs[bs.len() - 1]));
        let first = total_count(prev);
        if !(b.count == 0 || b.columns.len() == 0) {
            let names = column_names(b.columns);
            assert forall|i: int| 0 <= i < names.len() implies plain_name(#[trigger] names[i]) by {
                assert(names[i] == b.columns[i].name);
            }
            lemma_archetype_line(names);
            lemma_rows_clean(b, first, b.count);
            assert(clean_line(Seq::<char>::empty()));
            lemma_clean_concat(seq![archetype_text(b)], rows_lines(b, first, b.count));
            lemma_clean_concat(seq![archetype_text(b)] + rows_lines(b, first, b.count), seq![Seq::<char>::empty()]);
        }
        assert(all_clean(block_lines(b, first)));
        lemma_clean_concat(blocks_lines(prev), block_lines(b, first));
    }
}

/// An entity as read back: its file index, no comment, and its components
/// in column order.
pub open spec fn entity_read(b: BlockModel, index: nat, row: int) -> EntityModel {
    EntityModel { index: index as u32, comment: None, components: row_components(b, row, b.columns.len() as int) }
}

/// The first `k` components of a row as (name, value) pairs.
pub open spec fn row_components(b: BlockModel, row: int, k: int) -> Seq<(Seq<char>, Seq<char>)> {
    Seq::new(k as nat, |c: int| (b.columns[c].name, b.columns[c].values[row]))
}

/// The first `r` entities of a block as read back.
pub open spec fn entities_read(b: BlockModel, first: nat, r: int) -> Seq<EntityModel> {
    Seq::new(r as nat, |j: int| entity_read(b, (first + j) as nat, j))
}

/// A written block as read back.
pub open spec fn block_read(b: BlockModel, first: nat) -> ArchetypeModel {
    ArchetypeModel { types: column_names(b.columns), entities: entities_read(b, first, b.count as int) }
}

/// The written blocks as read back.
pub open spec fn blocks_read(bs: Seq<BlockModel>) -> Seq<ArchetypeModel>
    decreases bs.len(),
{
    if bs.len() == 0 {
        Seq::empty()
    } else if bs.last().count == 0 || bs.last().columns.len() == 0 {
        blocks_read(bs.drop_last())
    } else {
        blocks_read(bs.drop_last()).push(block_read(bs.last(), total_count(bs.drop_last())))
    }
}

/// The world that a written scene reads back as.
pub open spec fn scene_read(bs: Seq<BlockModel>) -> WorldModel {
    WorldModel { header: None, archetypes: blocks_read(bs), entities: Seq::empty() }
}

/// The state after reading the lines of the blocks: the last block read
/// is still open, with its last entity still being read.
pub open spec fn pending(bs: Seq<BlockModel>) -> ParseState {
    let ws = blocks_read(bs);
    if ws.len() == 0 {
        initial_state()
    } else {
        ParseState {
            world: WorldModel { header: None, archetypes: ws.drop_last(), entities: Seq::empty() },
            arch: Some(ArchetypeModel { types: ws.last().types, entities: ws.last().entities.drop_last() }),
            ent: Some(ws.last().entities.last()),
        }
    }
}

/// Every block read back holds an entity.
proof fn lemma_blocks_read_nonempty(bs: Seq<BlockModel>)
    ensures
        forall|i: int| 0 <= i < blocks_read(bs).len() ==> (#[trigger] blocks_read(bs)[i]).entities.len() > 0,
    decreases bs.len(),
{
    if bs.len() > 0 {
        let prev = bs.drop_last();
        lemma_blocks_read_nonempty(prev);
        let b = bs.last();
        if !(b.count == 0 || b.columns.len() == 0) {
            let br = block_read(b, total_count(prev));
            assert(br.entities.len() == b.count);
            assert forall|i: int| 0 <= i < blocks_read(bs).len() implies (#[trigger] blocks_read(bs)[i]).entities.len() > 0 by {
                if i < blocks_read(prev).len() {
                    assert(blocks_read(bs)[i] == blocks_read(prev)[i]);
                } else {
                    assert(blocks_read(bs)[i] == br);
                }
            }
        }
    }
}

/// Closing the pending block, or ending the input, gives the world read
/// back.
proof fn lemma_pending_closes(bs: Seq<BlockModel>)
    ensures
        close_archetype(pending(bs)) == scene_read(bs),
        finish(pending(bs)) == scene_read(bs),
{
    lemma_blocks_read_nonempty(bs);
    let ws = blocks_read(bs);
    if ws.len() == 0 {
        assert(ws =~= Seq::<ArchetypeModel>::empty());
    } else {
        assert(ws[ws.len() - 1].entities.len() > 0);
        let last = ws.last();
        assert(last.entities.drop_last().push(last.entities.last()) =~= last.entities);
        assert(ws.drop_last().push(last) =~= ws);
    }
}

/// Reading one line that reads without error.
proof fn lemma_run_one(l: Seq<char>, st: ParseState)
    requires
        simple_line(l, st),
    ensures
        run_lines(seq![l], st) == Some(step_line(l, st)),
{
    let one = seq![l];
    assert(one.drop_last() =~= Seq::<Seq<char>>::empty());
    assert(one.last() == l);
    assert(run_lines(Seq::<Seq<char>>::empty(), st) == Some(st));
}

/// Reading a blank or comment line keeps the state.
proof fn lemma_run_skipped(l: Seq<char>, st: ParseState)
    requires
        skipped(trim(l)),
    ensures
        run_lines(seq![l], st) == Some(st),
{
    lemma_run_one(l, st);
}

/// Reading the `@archetype` line of a written plain block opens it.
proof fn lemma_run_archetype(b: BlockModel, first: nat, st: ParseState)
    requires
        plain_block(b),
        b.columns.len() > 0,
    ensures
        run_lines(seq![archetype_text(b)], st) == Some(rows_state(b, first, 0, close_archetype(st), column_names(b.columns))),
{
    let names = column_names(b.columns);
    assert forall|i: int| 0 <= i < names.len() implies plain_name(#[trigger] names[i]) by {
        assert(names[i] == b.columns[i].name);
    }
    lemma_archetype_line(names);
    lemma_run_one(archetype_text(b), st);
}

/// Reading the component lines of a row adds its components to the entity
/// being read.
proof fn lemma_run_components(b: BlockModel, row: int, k: int, st: ParseState)
    requires
        plain_block(b),
        0 <= row < b.count,
        0 <= k <= b.columns.len(),
        st.ent is Some,
    ensures
        run_lines(component_lines(b, row, k), st) == Some(
            ParseState {
                world: st.world,
                arch: st.arch,
                ent: Some(
                    EntityModel {
                        index: st.ent->0.index,
                        comment: st.ent->0.comment,
                        components: st.ent->0.components + row_components(b, row, k),
                    },
                ),
            },
        ),
    decreases k,
{
    let e = st.ent->0;
    if k == 0 {
        assert(e.components + row_components(b, row, 0) =~= e.components);
    } else {
        lemma_run_components(b, row, k - 1, st);
        let cl = component_lines(b, row, k);
        assert(cl.drop_last() =~= component_lines(b, row, k - 1));
        let name = b.columns[k - 1].name;
        let value = b.columns[k - 1].values[row];
        assert(plain_name(name));
        assert(plain_value(value));
        lemma_component_line(name, value);
        assert(cl.last() == component_line(b, row, k - 1));
        assert(e.components + row_components(b, row, k) =~= (e.components + row_components(b, row, k - 1)).push((name, value)));
    }
}

/// Reading the lines of an entity saves the entity being read and reads
/// the new one whole.
proof fn lemma_run_row(b: BlockModel, index: nat, row: int, st: ParseState)
    requires
        plain_block(b),
        0 <= row < b.count,
        index <= u32::MAX,
    ensures
        run_lines(row_lines(b, index, row), st) == Some(
            ParseState { world: save_entity(st).world, arch: save_entity(st).arch, ent: Some(entity_read(b, index, row)) },
        ),
{
    let el = entity_line(index);
    lemma_entity_line(index);
    let one = seq![el];
    let s1 = ParseState {
        world: save_entity(st).world,
        arch: save_entity(st).arch,
        ent: Some(EntityModel { index: index as u32, comment: None, components: Seq::empty() }),
    };
    assert(simple_line(el, st));
    assert(step_line(el, st) == s1);
    lemma_run_one(el, st);
    lemma_run_concat(one, component_lines(b, row, b.columns.len() as int), st);
    lemma_run_components(b, row, b.columns.len() as int, s1);
    assert(Seq::<(Seq<char>, Seq<char>)>::empty() + row_components(b, row, b.columns.len() as int) =~= row_components(
        b,
        row,
        b.columns.len() as int,
    ));
}

/// The state after reading the first `n` entities of a block opened on
/// a world `w` with types `types`.
pub open spec fn rows_state(b: BlockModel, first: nat, n: nat, w: WorldModel, types: Seq<Seq<char>>) -> ParseState {
    if n == 0 {
        ParseState { world: w, arch: Some(ArchetypeModel { types, entities: Seq::empty() }), ent: None }
    } else {
        ParseState {
            world: w,
            arch: Some(ArchetypeModel { types, entities: entities_read(b, first, n - 1) }),
            ent: Some(entity_read(b, (first + n - 1) as nat, n - 1)),
        }
    }
}

/// Reading the entities of a block one after another.
proof fn lemma_run_rows(b: BlockModel, first: nat, n: nat, w: WorldModel, types: Seq<Seq<char>>)
    requires
        plain_block(b),
        n <= b.count,
        first + b.count <= u32::MAX + 1,
    ensures
        run_lines(rows_lines(b, first, n), rows_state(b, first, 0, w, types)) == Some(rows_state(b, first, n, w, types)),
    decreases n,
{
    let s0 = rows_state(b, first, 0, w, types);
    if n == 0 {
        assert(rows_lines(b, first, 0) =~= Seq::<Seq<char>>::empty());
    } else {
        lemma_run_rows(b, first, (n - 1) as nat, w, types);
        let prev = rows_state(b, first, (n - 1) as nat, w, types);
        lemma_run_concat(rows_lines(b, first, (n - 1) as nat), row_lines(b, (first + n - 1) as nat, n - 1), s0);
        lemma_run_row(b, (first + n - 1) as nat, n - 1, prev);
        if n == 1 {
            assert(entities_read(b, first, 0) =~= Seq::<EntityModel>::empty());
        } else {
            assert(entities_read(b, first, n - 2).push(entity_read(b, (first + n - 2) as nat, n - 2)) =~= entities_read(
                b,
                first,
                n - 1,
            ));
        }
    }
}

/// Reading the lines of a written plain block.
proof fn lemma_run_block(b: BlockModel, first: nat, st: ParseState)
    requires
        plain_block(b),
        !(b.count == 0 || b.columns.len() == 0),
        first + b.count <= u32::MAX + 1,
    ensures
        run_lines(block_lines(b, first), st) == Some(
            rows_state(b, first, b.count, close_archetype(st), column_names(b.columns)),
        ),
{
    let names = column_names(b.columns);
    let a = seq![archetype_text(b)];
    let r = rows_lines(b, first, b.count);
    let e = seq![Seq::<char>::empty()];
    lemma_run_archetype(b, first, st);
    lemma_run_concat(a, r, st);
    lemma_run_rows(b, first, b.count, close_archetype(st), names);
    let s1 = rows_state(b, first, b.count, close_archetype(st), names);
    lemma_run_concat(a + r, e, st);
    assert(trim(Seq::<char>::empty()) =~= Seq::<char>::empty());
    lemma_run_skipped(Seq::<char>::empty(), s1);
}

/// Reading the lines of plain blocks leaves the last block pending.
proof fn lemma_run_blocks(bs: Seq<BlockModel>)
    requires
        forall|k: int| 0 <= k < bs.len() ==> plain_block(#[trigger] bs[k]),
        total_count(bs) <= u32::MAX,
    ensures
        run_lines(blocks_lines(bs), initial_state()) == Some(pending(bs)),
    decreases bs.len(),
{
    if bs.len() == 0 {
        assert(blocks_read(bs) =~= Seq::<ArchetypeModel>::empty());
    } else {
        let prev = bs.drop_last();
        assert forall|k: int| 0 <= k < prev.len() implies plain_block(#[trigger] prev[k]) by {
            assert(prev[k] == bs[k]);
        }
        lemma_run_blocks(prev);
        let b = bs.last();
        assert(plain_block(bs[bs.len() - 1]));
        let first = total_count(prev);
        lemma_run_concat(blocks_lines(prev), block_lines(b, first), initial_state());
        if b.count == 0 || b.columns.len() == 0 {
            assert(block_lines(b, first) =~= Seq::<Seq<char>>::empty());
        } else {
            lemma_run_block(b, first, pending(prev));
            lemma_pending_closes(prev);
            let br = block_read(b, first);
            let ws = blocks_read(bs);
            assert(ws == blocks_read(prev).push(br));
            assert(ws.drop_last() =~= blocks_read(prev));
            assert(br.entities.drop_last() =~= entities_read(b, first, b.count - 1));
            assert(br.entities.last() == entity_read(b, (first + b.count - 1) as nat, b.count - 1));
        }
    }
}

/// A scene written from plain blocks reads back as their archetypes: each
/// written block (one with entities and columns) in order, with its column
/// names as types, and each of its entities under the file index it was
/// written with and with its components as (name, value) pairs in column
/// order.
pub proof fn law_written_scene_reads_back(bs: Seq<BlockModel>)
    requires
        forall|k: int| 0 <= k < bs.len() ==> plain_block(#[trigger] bs[k]),
        total_count(bs) <= u32::MAX,
    ensures
        spec_parse(scene_text(bs)) == ParseOutcome::Done(scene_read(bs)),
{
    lemma_scene_joined(bs);
    lemma_header_lines();
    lemma_blocks_clean(bs);
    lemma_clean_concat(header_lines(), blocks_lines(bs));
    lemma_lines_of_join(scene_lines(bs));
    let h = header_lines();
    let st = initial_state();
    assert(skipped(trim(h[0])));
    assert(skipped(trim(h[1])));
    assert(skipped(trim(h[2])));
    lemma_run_skipped(h[0], st);
    lemma_run_skipped(h[1], st);
    lemma_run_skipped(h[2], st);
    assert(h =~= seq![h[0]] + seq![h[1]] + seq![h[2]]);
    lemma_run_concat(seq![h[0]], seq![h[1]], st);
    lemma_run_concat(seq![h[0]] + seq![h[1]], seq![h[2]], st);
    assert(run_lines(h, st) == Some(st));
    lemma_run_concat(h, blocks_lines(bs), st);
    lemma_run_blocks(bs);
    lemma_parse_all(scene_lines(bs), pending(bs));
    lemma_pending_closes(bs);
}

} // verus!
