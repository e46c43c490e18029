//! Writing a world in the Nimbus scene format: the header, then one
//! `@archetype` block for each archetype that holds entities and
//! serializable components, each entity under `@entity N`, its components
//! as `Name: value` lines in order of name.
//!
//! File indices run over the entities of all archetypes in order, counting
//! those of archetypes that are not written too.

use vstd::prelude::*;
use vstd::relations::sorted_by;
use vstd::seq_lib::{to_multiset_insert, to_multiset_build};
use super::text::chars_of;

verus! {

/// A component type of an archetype: its registered name and, for each row
/// of the archetype, its value as text.
#[derive(Debug, Clone)]
pub struct SceneColumn {
    pub name: String,
    pub values: Vec<String>,
}

/// An archetype to write: how many entities it holds, and its
/// serializable components.
#[derive(Debug, Clone)]
pub struct SceneBlock {
    pub entity_count: usize,
    pub columns: Vec<SceneColumn>,
}

/// A column as characters.
pub ghost struct ColumnModel {
    pub name: Seq<char>,
    pub values: Seq<Seq<char>>,
}

/// A block as characters.
pub ghost struct BlockModel {
    pub count: nat,
    pub columns: Seq<ColumnModel>,
}

impl View for SceneColumn {
    type V = ColumnModel;

    open spec fn view(&self) -> ColumnModel {
        ColumnModel { name: self.name@, values: self.values@.map_values(|v: String| v@) }
    }
}

impl View for SceneBlock {
    type V = BlockModel;

    open spec fn view(&self) -> BlockModel {
        BlockModel { count: self.entity_count as nat, columns: column_views(self.columns@) }
    }
}

/// The columns as characters.
pub open spec fn column_views(cols: Seq<SceneColumn>) -> Seq<ColumnModel> {
    cols.map_values(|c: SceneColumn| c@)
}

/// The blocks as characters.
pub open spec fn blocks_view(blocks: Seq<SceneBlock>) -> Seq<BlockModel> {
    blocks.map_values(|b: SceneBlock| b@)
}

/// Every column of a block has a value for each of its entities.
pub open spec fn block_fits(b: BlockModel) -> bool {
    forall|c: int| 0 <= c < b.columns.len() ==> #[trigger] b.columns[c].values.len() == b.count
}

/// The number of entities of the blocks.
pub open spec fn total_count(bs: Seq<BlockModel>) -> nat
    decreases bs.len(),
{
    if bs.len() == 0 {
        0
    } else {
        total_count(bs.drop_last()) + bs.last().count
    }
}

/// The character of a decimal digit.
pub open spec fn digit_char(d: nat) -> char {
    ((48 + d) as u32) as char
}

/// The decimal digits of a number, without leading zeros.
pub open spec fn decimal(n: nat) -> Seq<char>
    decreases n,
{
    if n < 10 {
        seq![digit_char(n)]
    } else {
        decimal(n / 10).push(digit_char(n % 10))
    }
}

/// The first lines of every scene.
pub open spec fn header_text() -> Seq<char> {
    "# Nimbus Scene Format v1\n# Generated by nimbus_ecs\n\n"@
}

/// Names joined by `, `.
pub open spec fn names_text(names: Seq<Seq<char>>) -> Seq<char>
    decreases names.len(),
{
    if names.len() == 0 {
        Seq::empty()
    } else if names.len() == 1 {
        names[0]
    } else {
        names_text(names.drop_last()) + ", "@ + names.last()
    }
}

/// The names of the columns.
pub open spec fn column_names(cols: Seq<ColumnModel>) -> Seq<Seq<char>> {
    cols.map_values(|c: ColumnModel| c.name)
}

/// The component lines of a row, for its first `k` columns.
pub open spec fn components_text(b: BlockModel, row: int, k: int) -> Seq<char>
    decreases k,
{
    if k <= 0 {
        Seq::empty()
    } else {
        components_text(b, row, k - 1) + "    "@ + b.columns[k - 1].name + ": "@ + b.columns[k - 1].values[row] + "\n"@
    }
}

/// The lines of an entity: its file index, then its components.
pub open spec fn row_text(b: BlockModel, index: nat, row: int) -> Seq<char> {
    "  @entity "@ + decimal(index) + "\n"@ + components_text(b, row, b.columns.len() as int)
}

/// The first `n` rows of a block whose first entity has file index `first`.
pub open spec fn rows_text(b: BlockModel, first: nat, n: nat) -> Seq<char>
    decreases n,
{
    if n == 0 {
        Seq::empty()
    } else {
        rows_text(b, first, (n - 1) as nat) + row_text(b, (first + n - 1) as nat, n - 1)
    }
}

/// A block whose first entity has file index `first`; nothing for a block
/// with no entity or no column.
pub open spec fn block_text(b: BlockModel, first: nat) -> Seq<char> {
    if b.count == 0 || b.columns.len() == 0 {
        Seq::empty()
    } else {
        "@archetype ["@ + names_text(column_names(b.columns)) + "]\n"@ + rows_text(b, first, b.count) + "\n"@
    }
}

/// The blocks, with file indices from 0.
pub open spec fn blocks_text(bs: Seq<BlockModel>) -> Seq<char>
    decreases bs.len(),
{
    if bs.len() == 0 {
        Seq::empty()
    } else {
        blocks_text(bs.drop_last()) + block_text(bs.last(), total_count(bs.drop_last()))
    }
}

/// A whole scene.
pub open spec fn scene_text(bs: Seq<BlockModel>) -> Seq<char> {
    header_text() + blocks_text(bs)
}

/// Whether `a` comes before `b` or equals it, comparing characters in
/// order, a prefix first.
pub open spec fn lex_le(a: Seq<char>, b: Seq<char>) -> bool
    decreases a.len(),
{
    if a.len() == 0 {
        true
    } else if b.len() == 0 {
        false
    } else if a[0] != b[0] {
        a[0] < b[0]
    } else {
        lex_le(a.drop_first(), b.drop_first())
    }
}

/// Two texts are ordered one way or the other.
pub proof fn lemma_lex_total(a: Seq<char>, b: Seq<char>)
    ensures
        lex_le(a, b) || lex_le(b, a),
    decreases a.len(),
{
    if a.len() > 0 && b.len() > 0 && a[0] == b[0] {
        lemma_lex_total(a.drop_first(), b.drop_first());
    }
}

/// The order is transitive.
pub proof fn lemma_lex_trans(a: Seq<char>, b: Seq<char>, c: Seq<char>)
    requires
        lex_le(a, b),
        lex_le(b, c),
    ensures
        lex_le(a, c),
    decreases a.len(),
{
    if a.len() > 0 && b.len() > 0 && c.len() > 0 && a[0] == b[0] && b[0] == c[0] {
        lemma_lex_trans(a.drop_first(), b.drop_first(), c.drop_first());
    }
}

/// Comparing after a common prefix.
proof fn lemma_lex_skip(a: Seq<char>, b: Seq<char>, k: int)
    requires
        0 <= k <= a.len(),
        k <= b.len(),
        a.subrange(0, k) == b.subrange(0, k),
    ensures
        lex_le(a, b) == lex_le(a.subrange(k, a.len() as int), b.subrange(k, b.len() as int)),
    decreases k,
{
    if k > 0 {
        assert(a[0] == a.subrange(0, k)[0]);
        assert(b[0] == b.subrange(0, k)[0]);
        assert(a.drop_first().subrange(0, k - 1) =~= a.subrange(1, k));
        assert(b.drop_first().subrange(0, k - 1) =~= b.subrange(1, k));
        assert(a.subrange(1, k) =~= b.subrange(1, k)) by {
            assert forall|j: int| 0 <= j < k - 1 implies a.subrange(1, k)[j] == b.subrange(1, k)[j] by {
                assert(a.subrange(0, k)[j + 1] == b.subrange(0, k)[j + 1]);
                assert(a.subrange(1, k)[j] == a[j + 1]);
                assert(b.subrange(1, k)[j] == b[j + 1]);
                assert(a.subrange(0, k)[j + 1] == a[j + 1]);
                assert(b.subrange(0, k)[j + 1] == b[j + 1]);
            }
        }
        lemma_lex_skip(a.drop_first(), b.drop_first(), k - 1);
        assert(a.drop_first().subrange(k - 1, a.len() - 1) =~= a.subrange(k, a.len() as int));
        assert(b.drop_first().subrange(k - 1, b.len() - 1) =~= b.subrange(k, b.len() as int));
    } else {
        assert(a.subrange(0, a.len() as int) =~= a);
        assert(b.subrange(0, b.len() as int) =~= b);
    }
}

/// Compares two texts in character order.
fn text_le(a: &Vec<char>, b: &Vec<char>) -> (r: bool)
    ensures
        r == lex_le(a@, b@),
{
    let mut k: usize = 0;
    while k < a.len() && k < b.len() && a[k] == b[k]
        invariant
            k <= a@.len(),
            k <= b@.len(),
            a@.subrange(0, k as int) == b@.subrange(0, k as int),
        decreases a@.len() - k,
    {
        proof {
            assert(a@.subrange(0, k as int + 1) =~= a@.subrange(0, k as int).push(a@[k as int]));
            assert(b@.subrange(0, k as int + 1) =~= b@.subrange(0, k as int).push(b@[k as int]));
        }
        k = k + 1;
    }
    proof {
        lemma_lex_skip(a@, b@, k as int);
    }
    if k == a.len() {
        true
    } else if k == b.len() {
        false
    } else {
        a[k] < b[k]
    }
}

/// The order of columns by name.
pub open spec fn name_order() -> spec_fn(ColumnModel, ColumnModel) -> bool {
    |x: ColumnModel, y: ColumnModel| lex_le(x.name, y.name)
}

/// A column put into columns after the leading ones whose names are not
/// greater than its own.
pub open spec fn insert_by_name(out: Seq<ColumnModel>, c: ColumnModel) -> Seq<ColumnModel>
    decreases out.len(),
{
    if out.len() == 0 {
        seq![c]
    } else if lex_le(out[0].name, c.name) {
        seq![out[0]] + insert_by_name(out.drop_first(), c)
    } else {
        seq![c] + out
    }
}

/// Columns ordered by name by insertion: each column in turn goes after the
/// ones before it whose names are not greater, so that columns of equal
/// names keep their order.
pub open spec fn sorted_by_name(s: Seq<ColumnModel>) -> Seq<ColumnModel>
    decreases s.len(),
{
    if s.len() == 0 {
        Seq::empty()
    } else {
        insert_by_name(sorted_by_name(s.drop_last()), s.last())
    }
}

/// Inserting at the first position whose name is greater (or at the end)
/// is `insert_by_name`.
proof fn lemma_insert_by_name_at(out: Seq<ColumnModel>, c: ColumnModel, pos: int)
    requires
        0 <= pos <= out.len(),
        forall|i: int| 0 <= i < pos ==> lex_le(#[trigger] out[i].name, c.name),
        pos < out.len() ==> !lex_le(out[pos].name, c.name),
    ensures
        insert_by_name(out, c) == out.insert(pos, c),
    decreases out.len(),
{
    if out.len() == 0 {
        assert(out.insert(pos, c) =~= seq![c]);
    } else if pos == 0 {
        assert(out.insert(pos, c) =~= seq![c] + out);
    } else {
        assert(lex_le(out[0].name, c.name));
        let rest = out.drop_first();
        assert forall|i: int| 0 <= i < pos - 1 implies lex_le(#[trigger] rest[i].name, c.name) by {
            assert(rest[i] == out[i + 1]);
        }
        if pos < out.len() {
            assert(rest[pos - 1] == out[pos]);
        }
        lemma_insert_by_name_at(rest, c, pos - 1);
        assert(out.insert(pos, c) =~= seq![out[0]] + rest.insert(pos - 1, c));
    }
}

/// Orders columns by name; columns of equal names keep their order.
pub fn sort_columns(columns: Vec<SceneColumn>) -> (r: Vec<SceneColumn>)
    ensures
        column_views(r@) == sorted_by_name(column_views(columns@)),
        sorted_by(column_views(r@), name_order()),
        column_views(r@).to_multiset() == column_views(columns@).to_multiset(),
{
    let ghost all = column_views(columns@);
    let mut out: Vec<SceneColumn> = Vec::new();
    let mut keys: Vec<Vec<char>> = Vec::new();
    let mut rest = columns;
    let ghost taken: int = 0;
    proof {
        assert(column_views(out@) =~= Seq::<ColumnModel>::empty());
        assert(all.subrange(0, 0) =~= Seq::<ColumnModel>::empty());
        assert(column_views(rest@) =~= all.subrange(0, all.len() as int));
    }
    while rest.len() > 0
        invariant
            0 <= taken <= all.len(),
            column_views(rest@) == all.subrange(taken, all.len() as int),
            keys@.len() == out@.len(),
            forall|i: int| 0 <= i < keys@.len() ==> #[trigger] keys@[i]@ == out@[i].name@,
            sorted_by(column_views(out@), name_order()),
            column_views(out@).to_multiset() == all.subrange(0, taken).to_multiset(),
            column_views(out@) == sorted_by_name(all.subrange(0, taken)),
        decreases rest@.len(),
    {
        let ghost before = column_views(out@);
        let ghost rest_before = rest@;
        proof {
            assert(column_views(rest_before).len() == rest_before.len());
            assert(taken < all.len());
            assert(column_views(rest_before)[0] == all.subrange(taken, all.len() as int)[0]);
        }
        let col = rest.remove(0);
        proof {
            assert(col == rest_before[0]);
            assert(column_views(rest_before)[0] == rest_before[0]@);
            assert(all.subrange(taken, all.len() as int)[0] == all[taken]);
            assert(col@ == all[taken]);
            assert forall|j: int| 0 <= j < rest@.len() implies #[trigger] column_views(rest@)[j] == all.subrange(taken + 1, all.len() as int)[j] by {
                assert(rest@[j] == rest_before[j + 1]);
                assert(column_views(rest_before)[j + 1] == all.subrange(taken, all.len() as int)[j + 1]);
            }
            assert(column_views(rest@) =~= all.subrange(taken + 1, all.len() as int));
        }
        let key = chars_of(col.name.as_str());
        let mut pos: usize = 0;
        while pos < out.len() && text_le(&keys[pos], &key)
            invariant
                pos <= out@.len(),
                keys@.len() == out@.len(),
                forall|i: int| 0 <= i < keys@.len() ==> #[trigger] keys@[i]@ == out@[i].name@,
                forall|i: int| 0 <= i < pos ==> lex_le(#[trigger] out@[i].name@, key@),
            decreases out@.len() - pos,
        {
            pos = pos + 1;
        }
        proof {
            if pos < out@.len() {
                assert(!lex_le(out@[pos as int].name@, key@));
            }
            assert forall|i: int| pos <= i < out@.len() implies lex_le(key@, #[trigger] out@[i].name@) by {
                lemma_lex_total(key@, out@[pos as int].name@);
                if i > pos {
                    assert(before[pos as int] == out@[pos as int]@);
                    assert(before[i] == out@[i]@);
                    assert(name_order()(before[pos as int], before[i]));
                    lemma_lex_trans(key@, out@[pos as int].name@, out@[i].name@);
                }
            }
        }
        let ghost cv = col@;
        let ghost keys_before = keys@;
        let ghost out_before = out@;
        out.insert(pos, col);
        keys.insert(pos, key);
        proof {
            let after = column_views(out@);
            assert(after =~= before.insert(pos as int, cv));
            assert forall|i: int| 0 <= i < pos implies lex_le(#[trigger] before[i].name, cv.name) by {
                assert(before[i] == out_before[i]@);
            }
            if pos < before.len() {
                assert(before[pos as int] == out_before[pos as int]@);
            }
            lemma_insert_by_name_at(before, cv, pos as int);
            assert(all.subrange(0, taken + 1).drop_last() =~= all.subrange(0, taken));
            assert(all.subrange(0, taken + 1).last() == all[taken]);
            to_multiset_insert(before, pos as int, cv);
            assert(all.subrange(0, taken + 1) =~= all.subrange(0, taken).push(all[taken]));
            to_multiset_build(all.subrange(0, taken), all[taken]);
            assert forall|i: int| 0 <= i < keys@.len() implies #[trigger] keys@[i]@ == out@[i].name@ by {
                if i < pos {
                    assert(keys@[i] == keys_before[i] && out@[i] == out_before[i]);
                } else if i > pos {
                    assert(keys@[i] == keys_before[i - 1] && out@[i] == out_before[i - 1]);
                }
            }
            assert forall|i: int, j: int| 0 <= i < j < after.len() implies #[trigger] name_order()(after[i], after[j]) by {
                if j < pos {
                    assert(name_order()(before[i], before[j]));
                } else if j == pos {
                    assert(lex_le(before[i].name, cv.name));
                } else if i > pos {
                    assert(name_order()(before[i - 1], before[j - 1]));
                } else if i == pos {
                    assert(lex_le(cv.name, before[j - 1].name));
                } else {
                    assert(name_order()(before[i], before[j - 1]));
                }
            }
            taken = taken + 1;
        }
    }
    proof {
        assert(all.subrange(0, taken) =~= all);
    }
    out
}

/// Formats a number with `itoa::Buffer::format`. The contract claims that
/// the text is the decimal digits of the number, without leading zeros and
/// without a sign, as `itoa` documents for its integer formatting.
#[verifier::external_body]
pub(crate) fn format_index(n: u64) -> (r: String)
    ensures
        r@ == decimal(n as nat),
{
    let mut buffer = itoa::Buffer::new();
    buffer.format(n).to_owned()
}

/// The entities of a prefix of the blocks are no more than those of all.
proof fn lemma_total_prefix(bs: Seq<BlockModel>, k: int)
    requires
        0 <= k <= bs.len(),
    ensures
        total_count(bs.subrange(0, k)) <= total_count(bs),
    decreases bs.len() - k,
{
    if k < bs.len() {
        lemma_total_prefix(bs, k + 1);
        assert(bs.subrange(0, k + 1).drop_last() =~= bs.subrange(0, k));
    } else {
        assert(bs.subrange(0, k) =~= bs);
    }
}

/// Writes the lines of one entity.
fn write_row(out: &mut String, b: &SceneBlock, index: u32, row: usize)
    requires
        block_fits(b@),
        row < b.entity_count,
    ensures
        final(out)@ == old(out)@ + row_text(b@, index as nat, row as int),
{
    let ghost start = out@;
    out.append("  @entity ");
    let digits = format_index(index as u64);
    out.append(digits.as_str());
    out.append("\n");
    let ghost head = out@;
    proof {
        assert(head =~= start + ("  @entity "@ + decimal(index as nat) + "\n"@));
        assert(components_text(b@, row as int, 0) =~= Seq::<char>::empty());
    }
    let mut c: usize = 0;
    while c < b.columns.len()
        invariant
            c <= b.columns@.len(),
            block_fits(b@),
            row < b.entity_count,
            out@ == head + components_text(b@, row as int, c as int),
        decreases b.columns@.len() - c,
    {
        let col = &b.columns[c];
        proof {
            assert(b@.columns[c as int] == col@);
            assert(b@.columns[c as int].values.len() == b@.count);
        }
        let ghost before = out@;
        out.append("    ");
        out.append(col.name.as_str());
        out.append(": ");
        out.append(col.values[row].as_str());
        out.append("\n");
        proof {
            assert(col@.values[row as int] == col.values@[row as int]@);
            assert(out@ =~= before + "    "@ + col.name@ + ": "@ + col.values@[row as int]@ + "\n"@);
        }
        c = c + 1;
    }
    proof {
        assert(out@ =~= start + row_text(b@, index as nat, row as int));
    }
}

/// Writes one block, its first entity with file index `first`.
fn write_block(out: &mut String, b: &SceneBlock, first: u32)
    requires
        block_fits(b@),
        first + b.entity_count <= u32::MAX,
    ensures
        final(out)@ == old(out)@ + block_text(b@, first as nat),
{
    let ghost start = out@;
    if b.entity_count == 0 || b.columns.len() == 0 {
        proof {
            assert(out@ =~= start + block_text(b@, first as nat));
        }
        return;
    }
    out.append("@archetype [");
    let ghost opened = out@;
    let ghost names = column_names(b@.columns);
    let mut c: usize = 0;
    proof {
        assert(names.subrange(0, 0) =~= Seq::<Seq<char>>::empty());
        assert(out@ =~= opened + names_text(names.subrange(0, 0)));
    }
    while c < b.columns.len()
        invariant
            c <= b.columns@.len(),
            names == column_names(b@.columns),
            names.len() == b.columns@.len(),
            out@ == opened + names_text(names.subrange(0, c as int)),
        decreases b.columns@.len() - c,
    {
        let ghost before = out@;
        if c > 0 {
            out.append(", ");
        }
        out.append(b.columns[c].name.as_str());
        proof {
            assert(names[c as int] == b.columns@[c as int].name@);
            let sub = names.subrange(0, c as int + 1);
            assert(sub.drop_last() =~= names.subrange(0, c as int));
            assert(sub.last() == names[c as int]);
            if c == 0 {
                assert(out@ =~= opened + names_text(sub));
            } else {
                assert(out@ =~= opened + names_text(sub));
            }
        }
        c = c + 1;
    }
    proof {
        assert(names.subrange(0, c as int) =~= names);
    }
    out.append("]\n");
    let ghost rows_start = out@;
    let mut r: usize = 0;
    while r < b.entity_count
        invariant
            r <= b.entity_count,
            block_fits(b@),
            first + b.entity_count <= u32::MAX,
            out@ == rows_start + rows_text(b@, first as nat, r as nat),
        decreases b.entity_count - r,
    {
        let ghost before = out@;
        write_row(out, b, first + r as u32, r);
        proof {
            assert(out@ =~= rows_start + rows_text(b@, first as nat, (r + 1) as nat));
        }
        r = r + 1;
    }
    out.append("\n");
    proof {
        assert(out@ =~= start + block_text(b@, first as nat));
    }
}

/// Writes a scene: the header, then each block in order, file indices
/// running from 0 over the entities of all blocks.
pub fn write_scene(blocks: &Vec<SceneBlock>) -> (r: String)
    requires
        forall|k: int| 0 <= k < blocks@.len() ==> block_fits(#[trigger] blocks@[k]@),
        total_count(blocks_view(blocks@)) <= u32::MAX,
    ensures
        r@ == scene_text(blocks_view(blocks@)),
{
    let ghost bv = blocks_view(blocks@);
    let mut out = "# Nimbus Scene Format v1\n# Generated by nimbus_ecs\n\n".to_owned();
    let mut first: u32 = 0;
    let mut k: usize = 0;
    proof {
        assert(bv.subrange(0, 0) =~= Seq::<BlockModel>::empty());
    }
    while k < blocks.len()
        invariant
            k <= blocks@.len(),
            bv == blocks_view(blocks@),
            bv.len() == blocks@.len(),
            forall|j: int| 0 <= j < blocks@.len() ==> block_fits(#[trigger] blocks@[j]@),
            total_count(bv) <= u32::MAX,
            first == total_count(bv.subrange(0, k as int)),
            out@ == header_text() + blocks_text(bv.subrange(0, k as int)),
        decreases blocks@.len() - k,
    {
        let b = &blocks[k];
        proof {
            assert(bv[k as int] == b@);
            assert(block_fits(blocks@[k as int]@));
            lemma_total_prefix(bv, k as int + 1);
            let sub = bv.subrange(0, k as int + 1);
            assert(sub.drop_last() =~= bv.subrange(0, k as int));
            assert(sub.last() == b@);
        }
        write_block(&mut out, b, first);
        first = first + b.entity_count as u32;
        k = k + 1;
    }
    proof {
        assert(bv.subrange(0, k as int) =~= bv);
    }
    out
}

/// Whether a block is written: it has entities and columns.
pub open spec fn is_written(b: BlockModel) -> bool {
    b.count > 0 && b.columns.len() > 0
}

/// The number of entities of the blocks that are written.
pub open spec fn written_count(bs: Seq<BlockModel>) -> nat
    decreases bs.len(),
{
    if bs.len() == 0 {
        0
    } else {
        written_count(bs.drop_last()) + if is_written(bs.last()) { bs.last().count } else { 0 }
    }
}

/// Names, each in double quotes, joined by `,`.
pub open spec fn quoted_names(names: Seq<Seq<char>>) -> Seq<char>
    decreases names.len(),
{
    if names.len() == 0 {
        Seq::empty()
    } else {
        let prev = quoted_names(names.drop_last());
        let sep: Seq<char> = if names.len() > 1 { ","@ } else { Seq::empty() };
        prev + sep + "\""@ + names.last() + "\""@
    }
}

/// The `"Name":value` fields of a row, for its first `k` columns, each
/// after a comma.
pub open spec fn json_fields(b: BlockModel, row: int, k: int) -> Seq<char>
    decreases k,
{
    if k <= 0 {
        Seq::empty()
    } else {
        json_fields(b, row, k - 1) + ",\""@ + b.columns[k - 1].name + "\":"@ + b.columns[k - 1].values[row]
    }
}

/// An entity as a JSON object: its file index under `id`, then its
/// components.
pub open spec fn json_row(b: BlockModel, index: nat, row: int) -> Seq<char> {
    "{\"id\":"@ + decimal(index) + json_fields(b, row, b.columns.len() as int) + "}"@
}

/// The first `n` entities of a block, joined by `,`.
pub open spec fn json_rows(b: BlockModel, first: nat, n: nat) -> Seq<char>
    decreases n,
{
    if n == 0 {
        Seq::empty()
    } else {
        let sep: Seq<char> = if n > 1 { ","@ } else { Seq::empty() };
        json_rows(b, first, (n - 1) as nat) + sep + json_row(b, (first + n - 1) as nat, n - 1)
    }
}

/// A written block as a JSON object.
pub open spec fn json_block(b: BlockModel, first: nat) -> Seq<char> {
    "{\"components\":["@ + quoted_names(column_names(b.columns)) + "],\"entities\":["@ + json_rows(b, first, b.count) + "]}"@
}

/// The written blocks, joined by `,`; file indices count the entities of
/// written blocks only.
pub open spec fn json_blocks(bs: Seq<BlockModel>) -> Seq<char>
    decreases bs.len(),
{
    if bs.len() == 0 {
        Seq::empty()
    } else {
        let prev = json_blocks(bs.drop_last());
        let first = written_count(bs.drop_last());
        if !is_written(bs.last()) {
            prev
        } else {
            let sep: Seq<char> = if first > 0 { ","@ } else { Seq::empty() };
            prev + sep + json_block(bs.last(), first)
        }
    }
}

/// A whole world as one JSON document.
pub open spec fn json_scene(bs: Seq<BlockModel>) -> Seq<char> {
    "{\"archetypes\":["@ + json_blocks(bs) + "]}"@
}

/// The written entities of a prefix are no more than those of all.
proof fn lemma_written_prefix(bs: Seq<BlockModel>, k: int)
    requires
        0 <= k <= bs.len(),
    ensures
        written_count(bs.subrange(0, k)) <= written_count(bs),
    decreases bs.len() - k,
{
    if k < bs.len() {
        lemma_written_prefix(bs, k + 1);
        assert(bs.subrange(0, k + 1).drop_last() =~= bs.subrange(0, k));
    } else {
        assert(bs.subrange(0, k) =~= bs);
    }
}

/// Writes one entity as a JSON object.
fn write_json_row(out: &mut String, b: &SceneBlock, index: u32, row: usize)
    requires
        block_fits(b@),
        row < b.entity_count,
    ensures
        final(out)@ == old(out)@ + json_row(b@, index as nat, row as int),
{
    let ghost start = out@;
    out.append("{\"id\":");
    let digits = format_index(index as u64);
    out.append(digits.as_str());
    let ghost head = out@;
    proof {
        assert(json_fields(b@, row as int, 0) =~= Seq::<char>::empty());
    }
    let mut c: usize = 0;
    while c < b.columns.len()
        invariant
            c <= b.columns@.len(),
            block_fits(b@),
            row < b.entity_count,
            out@ == head + json_fields(b@, row as int, c as int),
        decreases b.columns@.len() - c,
    {
        let col = &b.columns[c];
        proof {
            assert(b@.columns[c as int] == col@);
            assert(b@.columns[c as int].values.len() == b@.count);
        }
        let ghost before = out@;
        out.append(",\"");
        out.append(col.name.as_str());
        out.append("\":");
        out.append(col.values[row].as_str());
        proof {
            assert(col@.values[row as int] == col.values@[row as int]@);
            assert(out@ =~= before + ",\""@ + col.name@ + "\":"@ + col.values@[row as int]@);
        }
        c = c + 1;
    }
    out.append("}");
    proof {
        assert(out@ =~= start + json_row(b@, index as nat, row as int));
    }
}

/// Writes one written block as a JSON object.
fn write_json_block(out: &mut String, b: &SceneBlock, first: u32)
    requires
        block_fits(b@),
        first + b.entity_count <= u32::MAX,
    ensures
        final(out)@ == old(out)@ + json_block(b@, first as nat),
{
    let ghost start = out@;
    out.append("{\"components\":[");
    let ghost opened = out@;
    let ghost names = column_names(b@.columns);
    let mut c: usize = 0;
    proof {
        assert(names.subrange(0, 0) =~= Seq::<Seq<char>>::empty());
        assert(out@ =~= opened + quoted_names(names.subrange(0, 0)));
    }
    while c < b.columns.len()
        invariant
            c <= b.columns@.len(),
            names == column_names(b@.columns),
            names.len() == b.columns@.len(),
            out@ == opened + quoted_names(names.subrange(0, c as int)),
        decreases b.columns@.len() - c,
    {
        if c > 0 {
            out.append(",");
        }
        out.append("\"");
        out.append(b.columns[c].name.as_str());
        out.append("\"");
        proof {
            assert(names[c as int] == b.columns@[c as int].name@);
            let sub = names.subrange(0, c as int + 1);
            assert(sub.drop_last() =~= names.subrange(0, c as int));
            assert(sub.last() == names[c as int]);
            assert(out@ =~= opened + quoted_names(sub));
        }
        c = c + 1;
    }
    proof {
        assert(names.subrange(0, c as int) =~= names);
    }
    out.append("],\"entities\":[");
    let ghost rows_start = out@;
    let mut r: usize = 0;
    while r < b.entity_count
        invariant
            r <= b.entity_count,
            block_fits(b@),
            first + b.entity_count <= u32::MAX,
            out@ == rows_start + json_rows(b@, first as nat, r as nat),
        decreases b.entity_count - r,
    {
        if r > 0 {
            out.append(",");
        }
        write_json_row(out, b, first + r as u32, r);
        proof {
            assert(out@ =~= rows_start + json_rows(b@, first as nat, (r + 1) as nat));
        }
        r = r + 1;
    }
    out.append("]}");
    proof {
        assert(out@ =~= start + json_block(b@, first as nat));
    }
}

/// Writes a world as one JSON document: `{"archetypes":[...]}` with a
/// `{"components":[...],"entities":[...]}` object for each block that has
/// entities and columns; file indices run from 0 over the entities of
/// those blocks.
pub fn write_json_scene(blocks: &Vec<SceneBlock>) -> (r: String)
    requires
        forall|k: int| 0 <= k < blocks@.len() ==> block_fits(#[trigger] blocks@[k]@),
        written_count(blocks_view(blocks@)) <= u32::MAX,
    ensures
        r@ == json_scene(blocks_view(blocks@)),
{
    let ghost bv = blocks_view(blocks@);
    let mut out = "{\"archetypes\":[".to_owned();
    let mut first: u32 = 0;
    let mut k: usize = 0;
    proof {
        assert(bv.subrange(0, 0) =~= Seq::<BlockModel>::empty());
    }
    while k < blocks.len()
        invariant
            k <= blocks@.len(),
            bv == blocks_view(blocks@),
            bv.len() == blocks@.len(),
            forall|j: int| 0 <= j < blocks@.len() ==> block_fits(#[trigger] blocks@[j]@),
            written_count(bv) <= u32::MAX,
            first == written_count(bv.subrange(0, k as int)),
            out@ == "{\"archetypes\":["@ + json_blocks(bv.subrange(0, k as int)),
        decreases blocks@.len() - k,
    {
        let b = &blocks[k];
        proof {
            assert(bv[k as int] == b@);
            assert(block_fits(blocks@[k as int]@));
            lemma_written_prefix(bv, k as int + 1);
            let sub = bv.subrange(0, k as int + 1);
            assert(sub.drop_last() =~= bv.subrange(0, k as int));
            assert(sub.last() == b@);
        }
        if b.entity_count > 0 && b.columns.len() > 0 {
            if first > 0 {
                out.append(",");
            }
            write_json_block(&mut out, b, first);
            first = first + b.entity_count as u32;
        }
        proof {
            assert(out@ =~= "{\"archetypes\":["@ + json_blocks(bv.subrange(0, k as int + 1)));
        }
        k = k + 1;
    }
    proof {
        assert(bv.subrange(0, k as int) =~= bv);
    }
    out.append("]}");
    out
}

} // verus!
