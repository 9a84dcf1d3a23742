//! The table of registered nodes: for each name its replica count and the
//! load assigned to it so far.

use vstd::prelude::*;

verus! {

/// What the table records of one registered node.
pub struct Registration {
    pub name: Seq<char>,
    pub replicas: nat,
    pub load: nat,
}

/// Some row of the table carries `name`.
pub open spec fn is_registered(table: Seq<Registration>, name: Seq<char>) -> bool {
    exists|i: int| #![trigger table[i]] 0 <= i < table.len() && table[i].name == name
}

/// The index of the row that carries `name`, where there is one.
pub open spec fn entry_of(table: Seq<Registration>, name: Seq<char>) -> int {
    choose|i: int| #![trigger table[i]] 0 <= i < table.len() && table[i].name == name
}

/// The row that carries `name`, where there is one.
pub open spec fn record(table: Seq<Registration>, name: Seq<char>) -> Registration {
    table[entry_of(table, name)]
}

/// No name is carried by two rows.
pub open spec fn distinct_names(table: Seq<Registration>) -> bool {
    forall|i: int, j: int|
        #![trigger table[i], table[j]]
        0 <= i < j < table.len() ==> table[i].name != table[j].name
}

/// The sum of the loads of all rows.
pub open spec fn load_sum(table: Seq<Registration>) -> nat
    decreases table.len(),
{
    if table.len() == 0 {
        0
    } else {
        load_sum(table.drop_last()) + table.last().load
    }
}

/// Every row has no load.
pub open spec fn idle(table: Seq<Registration>) -> bool {
    forall|i: int| #![trigger table[i]] 0 <= i < table.len() ==> table[i].load == 0
}

/// In a table of distinct names a row is found again by its name.
pub proof fn lemma_entry_of(table: Seq<Registration>, i: int)
    requires
        distinct_names(table),
        0 <= i < table.len(),
    ensures
        is_registered(table, table[i].name),
        entry_of(table, table[i].name) == i,
        record(table, table[i].name) == table[i],
{
    let k = entry_of(table, table[i].name);
    if k < i {
        assert(table[k].name != table[i].name);
    } else if i < k {
        assert(table[i].name != table[k].name);
    }
}

/// The index of a registered name lies in the table and its row carries the name.
pub proof fn lemma_entry_in_range(table: Seq<Registration>, name: Seq<char>)
    requires
        is_registered(table, name),
    ensures
        0 <= entry_of(table, name) < table.len(),
        record(table, name).name == name,
{
}

/// A row added for a new name leaves the other rows as they are.
pub proof fn lemma_table_push(table: Seq<Registration>, row: Registration)
    requires
        distinct_names(table),
        !is_registered(table, row.name),
    ensures
        distinct_names(table.push(row)),
        load_sum(table.push(row)) == load_sum(table) + row.load,
        record(table.push(row), row.name) == row,
        forall|name: Seq<char>| #[trigger]
            is_registered(table.push(row), name) <==> (name == row.name || is_registered(
                table,
                name,
            )),
        forall|name: Seq<char>|
            is_registered(table, name) ==> #[trigger] record(table.push(row), name) == record(
                table,
                name,
            ),
{
    let grown = table.push(row);
    assert(grown.drop_last() =~= table);
    assert forall|i: int, j: int| 0 <= i < j < grown.len() implies (#[trigger] grown[i]).name
        != (#[trigger] grown[j]).name by {
        if j < table.len() {
            assert(grown[i] == table[i] && grown[j] == table[j]);
        } else {
            assert(grown[i] == table[i]);
        }
    }
    assert(grown[table.len() as int] == row);
    lemma_entry_of(grown, table.len() as int);
    assert forall|name: Seq<char>| #[trigger]
        is_registered(grown, name) <==> (name == row.name || is_registered(table, name)) by {
        if is_registered(grown, name) {
            let k = entry_of(grown, name);
            if k < table.len() {
                assert(table[k].name == name);
            }
        }
        if is_registered(table, name) {
            let k = entry_of(table, name);
            assert(grown[k].name == name);
        }
    }
    assert forall|name: Seq<char>| is_registered(table, name) implies #[trigger] record(
        grown,
        name,
    ) == record(table, name) by {
        let k = entry_of(table, name);
        assert(grown[k] == table[k]);
        lemma_entry_of(grown, k);
    }
}

/// The loads of a table add up row by row, whichever row is set apart.
pub proof fn lemma_load_sum_split(table: Seq<Registration>, i: int)
    requires
        0 <= i < table.len(),
    ensures
        load_sum(table) == load_sum(table.remove(i)) + table[i].load,
        table[i].load <= load_sum(table),
    decreases table.len(),
{
    if i == table.len() - 1 {
        assert(table.remove(i) =~= table.drop_last());
    } else {
        lemma_load_sum_split(table.drop_last(), i);
        assert(table.remove(i).drop_last() =~= table.drop_last().remove(i));
        assert(table.remove(i).last() == table.last());
    }
}

/// A row struck from the table leaves the other rows as they are.
pub proof fn lemma_table_remove(table: Seq<Registration>, i: int)
    requires
        distinct_names(table),
        0 <= i < table.len(),
    ensures
        distinct_names(table.remove(i)),
        load_sum(table.remove(i)) == load_sum(table) - table[i].load,
        forall|name: Seq<char>| #[trigger]
            is_registered(table.remove(i), name) <==> (name != table[i].name && is_registered(
                table,
                name,
            )),
        forall|name: Seq<char>|
            name != table[i].name && is_registered(table, name) ==> #[trigger] record(
                table.remove(i),
                name,
            ) == record(table, name),
{
    let shrunk = table.remove(i);
    lemma_load_sum_split(table, i);
    assert forall|a: int, b: int| 0 <= a < b < shrunk.len() implies (#[trigger] shrunk[a]).name
        != (#[trigger] shrunk[b]).name by {
        let x = if a < i { a } else { a + 1 };
        let y = if b < i { b } else { b + 1 };
        assert(shrunk[a] == table[x] && shrunk[b] == table[y]);
    }
    assert forall|name: Seq<char>| #[trigger]
        is_registered(shrunk, name) <==> (name != table[i].name && is_registered(
            table,
            name,
        )) by {
        if is_registered(shrunk, name) {
            let k = entry_of(shrunk, name);
            let x = if k < i { k } else { k + 1 };
            assert(shrunk[k] == table[x]);
            lemma_entry_of(table, x);
            lemma_entry_of(table, i);
        }
        if name != table[i].name && is_registered(table, name) {
            let k = entry_of(table, name);
            let y = if k < i { k } else { k - 1 };
            assert(shrunk[y] == table[k]);
        }
    }
    assert forall|name: Seq<char>|
        name != table[i].name && is_registered(table, name) implies #[trigger] record(
        shrunk,
        name,
    ) == record(table, name) by {
        let k = entry_of(table, name);
        let y = if k < i { k } else { k - 1 };
        assert(shrunk[y] == table[k]);
        lemma_entry_of(shrunk, y);
    }
}

/// A row rewritten under its own name leaves the other rows as they are.
pub proof fn lemma_table_update(table: Seq<Registration>, i: int, row: Registration)
    requires
        distinct_names(table),
        0 <= i < table.len(),
        row.name == table[i].name,
    ensures
        distinct_names(table.update(i, row)),
        load_sum(table.update(i, row)) == load_sum(table) - table[i].load + row.load,
        record(table.update(i, row), row.name) == row,
        forall|name: Seq<char>| #[trigger]
            is_registered(table.update(i, row), name) <==> is_registered(table, name),
        forall|name: Seq<char>|
            name != row.name && is_registered(table, name) ==> #[trigger] record(
                table.update(i, row),
                name,
            ) == record(table, name),
{
    let changed = table.update(i, row);
    lemma_load_sum_split(table, i);
    lemma_load_sum_split(changed, i);
    assert(changed.remove(i) =~= table.remove(i));
    assert forall|a: int, b: int| 0 <= a < b < changed.len() implies (#[trigger] changed[a]).name
        != (#[trigger] changed[b]).name by {
        assert(changed[a].name == table[a].name && changed[b].name == table[b].name);
    }
    lemma_entry_of(changed, i);
    assert forall|name: Seq<char>| #[trigger]
        is_registered(changed, name) <==> is_registered(table, name) by {
        if is_registered(changed, name) {
            let k = entry_of(changed, name);
            assert(table[k].name == name);
        }
        if is_registered(table, name) {
            let k = entry_of(table, name);
            assert(changed[k].name == name);
        }
    }
    assert forall|name: Seq<char>|
        name != row.name && is_registered(table, name) implies #[trigger] record(changed, name)
        == record(table, name) by {
        let k = entry_of(table, name);
        assert(changed[k] == table[k]);
        lemma_entry_of(changed, k);
    }
}

/// A table without load sums to nothing, and a table that sums to nothing
/// is without load.
pub proof fn lemma_idle_iff_no_load(table: Seq<Registration>)
    ensures
        idle(table) <==> load_sum(table) == 0,
    decreases table.len(),
{
    if table.len() > 0 {
        let rest = table.drop_last();
        lemma_idle_iff_no_load(rest);
        if idle(table) {
            assert forall|i: int| 0 <= i < rest.len() implies (#[trigger] rest[i]).load == 0 by {
                assert(rest[i] == table[i]);
            }
            assert(table[table.len() - 1].load == 0);
        }
        if load_sum(table) == 0 {
            assert forall|i: int| 0 <= i < table.len() implies (#[trigger] table[i]).load
                == 0 by {
                if i < rest.len() {
                    assert(rest[i] == table[i]);
                }
            }
        }
    }
}

/// A table whose rows all carry at least `least` sums to at least `least`
/// for each row.
pub proof fn lemma_load_sum_at_least(table: Seq<Registration>, least: nat)
    requires
        forall|i: int| #![trigger table[i]] 0 <= i < table.len() ==> table[i].load >= least,
    ensures
        load_sum(table) >= table.len() * least,
    decreases table.len(),
{
    if table.len() == 0 {
        assert(0 * least == 0) by (nonlinear_arith);
    } else {
        let rest = table.drop_last();
        assert forall|i: int| 0 <= i < rest.len() implies (#[trigger] rest[i]).load >= least by {
            assert(rest[i] == table[i]);
        }
        lemma_load_sum_at_least(rest, least);
        assert(table[table.len() - 1].load >= least);
        assert(table.len() * least == rest.len() * least + least) by (nonlinear_arith)
            requires
                table.len() == rest.len() + 1,
        ;
    }
}

} // verus!
