use vstd::prelude::*;

verus! {

/// The line printed for a row of a result set: the columns in order, each
/// after the first set off by a comma, except that while the line is still
/// empty a column is added with no comma before it.
pub open spec fn sentence(cols: Seq<Seq<char>>) -> Seq<char>
    decreases cols.len(),
{
    if cols.len() == 0 {
        Seq::empty()
    } else {
        let before = sentence(cols.drop_last());
        if before.len() == 0 {
            cols.last()
        } else {
            before + seq![','] + cols.last()
        }
    }
}

/// The columns joined with commas.
pub open spec fn comma_join(cols: Seq<Seq<char>>) -> Seq<char>
    decreases cols.len(),
{
    if cols.len() == 0 {
        Seq::empty()
    } else if cols.len() == 1 {
        cols[0]
    } else {
        comma_join(cols.drop_last()) + seq![','] + cols.last()
    }
}

/// How many columns at the front of the row are empty.
pub open spec fn leading_empty(cols: Seq<Seq<char>>) -> nat
    decreases cols.len(),
{
    if cols.len() > 0 && cols[0].len() == 0 {
        1 + leading_empty(cols.drop_first())
    } else {
        0
    }
}

/// The views of a row of strings.
pub open spec fn column_views(cols: Seq<String>) -> Seq<Seq<char>> {
    cols.map_values(|c: String| c@)
}

/// Builds the line printed for a row.
pub fn row_sentence(cols: &Vec<String>) -> (r: String)
    ensures
        r@ == sentence(column_views(cols@)),
{
    let mut line = String::new();
    let ghost views = column_views(cols@);
    for i in 0..cols.len()
        invariant
            views == column_views(cols@),
            line@ == sentence(views.take(i as int)),
    {
        proof {
            assert(views.take(i + 1).drop_last() == views.take(i as int));
            assert(views.take(i + 1).last() == cols@[i as int]@);
        }
        if line.as_str().unicode_len() == 0 {
            line.append(cols[i].as_str());
            assert(line@ == cols@[i as int]@);
        } else {
            line.append(",");
            proof {
                reveal_strlit(",");
            }
            line.append(cols[i].as_str());
        }
    }
    assert(views.take(cols.len() as int) == views);
    line
}

proof fn lemma_sentence_all_empty(cols: Seq<Seq<char>>)
    requires
        forall|i: int| 0 <= i < cols.len() ==> #[trigger] cols[i].len() == 0,
    ensures
        sentence(cols).len() == 0,
    decreases cols.len(),
{
    if cols.len() > 0 {
        lemma_sentence_all_empty(cols.drop_last());
    }
}

proof fn lemma_leading_empty_bounds(cols: Seq<Seq<char>>)
    ensures
        leading_empty(cols) <= cols.len(),
        forall|i: int| 0 <= i < leading_empty(cols) ==> #[trigger] cols[i].len() == 0,
        leading_empty(cols) < cols.len() ==> cols[leading_empty(cols) as int].len() > 0,
    decreases cols.len(),
{
    if cols.len() > 0 && cols[0].len() == 0 {
        let t = cols.drop_first();
        lemma_leading_empty_bounds(t);
        assert forall|i: int| 0 <= i < leading_empty(cols) implies #[trigger] cols[i].len() == 0 by {
            if i > 0 {
                assert(cols[i] == t[i - 1]);
            }
        }
        if leading_empty(cols) < cols.len() {
            assert(cols[leading_empty(cols) as int] == t[leading_empty(t) as int]);
        }
    }
}

proof fn lemma_sentence_prefix(cols: Seq<Seq<char>>, k: int)
    requires
        0 <= k <= cols.len(),
        forall|i: int| 0 <= i < k ==> #[trigger] cols[i].len() == 0,
        k < cols.len() ==> cols[k].len() > 0,
    ensures
        sentence(cols) == comma_join(cols.skip(k)),
    decreases cols.len(),
{
    if cols.len() == k {
        lemma_sentence_all_empty(cols);
        assert(cols.skip(k).len() == 0);
    } else if cols.len() == k + 1 {
        lemma_sentence_all_empty(cols.drop_last());
        assert(cols.skip(k) == seq![cols[k]]);
    } else {
        let init = cols.drop_last();
        lemma_sentence_prefix(init, k);
        assert(init.skip(k) == cols.skip(k).drop_last());
        assert(cols.skip(k).last() == cols.last());
        lemma_comma_join_nonempty(init.skip(k));
    }
}

proof fn lemma_comma_join_nonempty(cols: Seq<Seq<char>>)
    requires
        cols.len() > 0,
        cols[0].len() > 0,
    ensures
        comma_join(cols).len() > 0,
    decreases cols.len(),
{
    if cols.len() > 1 {
        lemma_comma_join_nonempty(cols.drop_last());
    }
}

/// The printed line is the comma-join of the row once its leading empty
/// columns are dropped; a row with no empty column prints as the plain
/// comma-join of its columns.
pub proof fn law_sentence_skips_leading_empty_columns(cols: Seq<Seq<char>>)
    ensures
        sentence(cols) == comma_join(cols.skip(leading_empty(cols) as int)),
        (forall|i: int| 0 <= i < cols.len() ==> #[trigger] cols[i].len() > 0) ==> sentence(cols)
            == comma_join(cols),
{
    lemma_leading_empty_bounds(cols);
    lemma_sentence_prefix(cols, leading_empty(cols) as int);
    if forall|i: int| 0 <= i < cols.len() ==> #[trigger] cols[i].len() > 0 {
        if cols.len() > 0 {
            assert(cols[0].len() > 0);
        }
        assert(leading_empty(cols) == 0);
        assert(cols.skip(0) == cols);
    }
}

}
