//! The one edit that the tool makes: every stage of the late challenges is
//! marked as completed.

use crate::envelope::File;
use crate::value::{lookup, lookup_ref, names, Data, Value};
use vstd::prelude::*;

verus! {

/// The names that lead from the root to the table of challenges.
pub open spec fn progress_path() -> Seq<Seq<char>> {
    seq!["Data"@, "Career"@, "Progress"@]
}

/// The field that says whether a stage is completed.
pub open spec fn complete_flag() -> Seq<char> {
    "bComplete"@
}

/// Whether `name` is one of the challenges that are marked.
pub open spec fn is_late_challenge(name: Seq<char>) -> bool {
    name == "Challenge_06"@ || name == "Challenge_07"@ || name == "Challenge_08"@ || name
        == "Challenge_09"@
}

/// The pairs with `value` set under `name` in the value of each.
pub open spec fn with_field_in_each(items: Seq<(Value, Value)>, name: Seq<char>, value: Value) -> Seq<
    (Value, Value),
> {
    Seq::new(items.len(), |i: int| (items[i].0, items[i].1.with_field(name, value)))
}

/// The pairs with `value` set under `name` in the value of each of the
/// first `done`.
pub open spec fn with_field_in_first(
    items: Seq<(Value, Value)>,
    name: Seq<char>,
    value: Value,
    done: int,
) -> Seq<(Value, Value)> {
    Seq::new(
        items.len(),
        |i: int|
            if i < done {
                (items[i].0, items[i].1.with_field(name, value))
            } else {
                items[i]
            },
    )
}

/// The challenges with the first `done` as they stand after the edit.
pub open spec fn marked_first(challenges: Seq<(Value, Value)>, done: int) -> Seq<(Value, Value)> {
    Seq::new(
        challenges.len(),
        |i: int|
            if i < done {
                marked(challenges[i])
            } else {
                challenges[i]
            },
    )
}

/// One challenge with its name, as it stands after the edit.
pub open spec fn marked(challenge: (Value, Value)) -> (Value, Value) {
    if is_late_challenge(challenge.0->String_0) {
        (
            challenge.0,
            Value::Table(
                with_field_in_each(challenge.1->Table_0, complete_flag(), Value::Boolean(true)),
            ),
        )
    } else {
        challenge
    }
}

/// Whether the edit can be made on a table of challenges: every challenge
/// is named by a string, and each of the late ones is a table of stages
/// that are tables themselves.
pub open spec fn markable(challenges: Seq<(Value, Value)>) -> bool {
    forall|i: int|
        0 <= i < challenges.len() ==> {
            let challenge = #[trigger] challenges[i];
            &&& challenge.0 is String
            &&& is_late_challenge(challenge.0->String_0) ==> {
                &&& challenge.1 is Table
                &&& forall|j: int|
                    0 <= j < challenge.1->Table_0.len() ==> (#[trigger] challenge.1->Table_0[j]).1 is Table
            }
        }
}

/// Whether the edit can be made on a tree: the table of challenges is
/// where it is looked for, and the edit can be made on it.
pub open spec fn modifiable(root: Value) -> bool {
    match root.at(progress_path()) {
        Some(Value::Table(challenges)) => markable(challenges),
        _ => false,
    }
}

/// The tree after the edit.
pub open spec fn modified(root: Value) -> Value {
    root.with_at(
        progress_path(),
        Value::Table(root.at(progress_path())->0->Table_0.map_values(|c: (Value, Value)| marked(c))),
    )
}

/// Sets the field `name` to `flag` in the value of every pair of a table.
pub fn set_flag_in_each<'d>(table: &mut Data<'d>, name: &'d str, flag: bool)
    requires
        *old(table) is Table,
        forall|j: int|
            0 <= j < old(table)@->Table_0.len() ==> (#[trigger] old(table)@->Table_0[j]).1 is Table,
    ensures
        final(table)@ == Value::Table(
            with_field_in_each(old(table)@->Table_0, name@, Value::Boolean(flag)),
        ),
{
    match table {
        Data::Table(items) => {
            let ghost before = Data::views(items@);
            assert(old(table)@->Table_0 == before);
            let mut j: usize = 0;
            assert(before =~= with_field_in_first(before, name@, Value::Boolean(flag), 0));
            while j < items.len()
                invariant
                    j <= items.len(),
                    items@.len() == before.len(),
                    forall|k: int| 0 <= k < before.len() ==> (#[trigger] before[k]).1 is Table,
                    Data::views(items@) == with_field_in_first(
                        before,
                        name@,
                        Value::Boolean(flag),
                        j as int,
                    ),
                decreases items.len() - j,
            {
                assert(before[j as int].1 is Table);
                assert(Data::views(items@)[j as int] == before[j as int]);
                let ghost previous = items@;
                items[j].1.set_field(name, Data::Boolean(flag));
                assert(items@.len() == previous.len());
                assert(forall|k: int| 0 <= k < items@.len() && k != j ==> items@[k] == previous[k]);
                assert(items@[j as int].0 == previous[j as int].0);
                assert(items@[j as int].1@ == previous[j as int].1@.with_field(
                    name@,
                    Value::Boolean(flag),
                ));
                proof {
                    let m = j as int;
                    let now = Data::views(items@);
                    let then = Data::views(previous);
                    assert(then[m] == before[m]);
                    assert(now[m] == (before[m].0, before[m].1.with_field(name@, Value::Boolean(flag))));
                    assert forall|k: int| 0 <= k < now.len() && k != m implies now[k] == then[k] by {
                        assert(items@[k] == previous[k]);
                    }
                }
                j = j + 1;
                assert(Data::views(items@) =~= with_field_in_first(
                    before,
                    name@,
                    Value::Boolean(flag),
                    j as int,
                ));
            }
            assert(Data::views(items@) =~= with_field_in_each(
                before,
                name@,
                Value::Boolean(flag),
            ));
        },
        _ => unreached(),
    }
}

/// Whether `key` names one of the challenges that are marked.
pub fn is_late(key: &Data) -> (late: bool)
    ensures
        late == (key@ is String && is_late_challenge(key@->String_0)),
{
    key.is_text("Challenge_06") || key.is_text("Challenge_07") || key.is_text("Challenge_08")
        || key.is_text("Challenge_09")
}

/// Whether every value of the pairs is a table.
pub fn all_tables<'d>(items: &Vec<(Data<'d>, Data<'d>)>) -> (all: bool)
    ensures
        all == forall|j: int|
            0 <= j < items@.len() ==> (#[trigger] Data::views(items@)[j]).1 is Table,
{
    let mut j: usize = 0;
    while j < items.len()
        invariant
            j <= items.len(),
            forall|k: int| 0 <= k < j ==> (#[trigger] Data::views(items@)[k]).1 is Table,
        decreases items.len() - j,
    {
        match &items[j].1 {
            Data::Table(_) => {},
            _ => {
                assert(!(Data::views(items@)[j as int].1 is Table));
                return false;
            },
        }
        j = j + 1;
    }
    true
}

/// Whether the edit can be made on a challenge.
pub fn can_mark<'d>(challenge: &(Data<'d>, Data<'d>)) -> (ok: bool)
    ensures
        ok == ({
            &&& challenge.0@ is String
            &&& is_late_challenge(challenge.0@->String_0) ==> {
                &&& challenge.1@ is Table
                &&& forall|j: int|
                    0 <= j < challenge.1@->Table_0.len() ==> (
                    #[trigger] challenge.1@->Table_0[j]).1 is Table
            }
        }),
{
    match &challenge.0 {
        Data::String(_) => if is_late(&challenge.0) {
            match &challenge.1 {
                Data::Table(stages) => {
                    assert(challenge.1@->Table_0 == Data::views(stages@));
                    all_tables(stages)
                },
                _ => false,
            }
        } else {
            true
        },
        _ => false,
    }
}

/// Whether the edit can be made on the tree of `file`.
pub fn can_modify(file: &File) -> (ok: bool)
    ensures
        ok == modifiable(file.data@),
{
    let path = ["Data", "Career", "Progress"];
    assert(names(path@) =~= progress_path());
    match lookup_ref(&file.data, path.as_slice()) {
        Some(Data::Table(challenges)) => {
            let ghost all = Data::views(challenges@);
            let mut i: usize = 0;
            while i < challenges.len()
                invariant
                    i <= challenges.len(),
                    all == Data::views(challenges@),
                    file.data@.at(progress_path()) == Some(Value::Table(all)),
                    markable(all.take(i as int)),
                decreases challenges.len() - i,
            {
                if !can_mark(&challenges[i]) {
                    assert(all[i as int] == (challenges@[i as int].0@, challenges@[i as int].1@));
                    assert(!markable(all));
                    return false;
                }
                assert(all[i as int] == (challenges@[i as int].0@, challenges@[i as int].1@));
                assert forall|k: int| 0 <= k < i + 1 implies ({
                    let challenge = #[trigger] all.take(i + 1)[k];
                    &&& challenge.0 is String
                    &&& is_late_challenge(challenge.0->String_0) ==> {
                        &&& challenge.1 is Table
                        &&& forall|j: int|
                            0 <= j < challenge.1->Table_0.len() ==> (
                            #[trigger] challenge.1->Table_0[j]).1 is Table
                    }
                }) by {
                    if k < i {
                        assert(all.take(i + 1)[k] == all.take(i as int)[k]);
                    }
                }
                i = i + 1;
            }
            assert(all.take(i as int) =~= all);
            true
        },
        _ => false,
    }
}

/// Makes the edit where it can be made, and says whether it was made; a
/// tree on which it cannot be made stays as it is.
pub fn try_modify(file: &mut File) -> (made: bool)
    ensures
        made == modifiable(old(file).data@),
        final(file).data@ == if made {
            modified(old(file).data@)
        } else {
            old(file).data@
        },
{
    if can_modify(file) {
        modify(file);
        true
    } else {
        false
    }
}

/// Marks every stage of the late challenges as completed. The table of
/// challenges has to be there, in the shape that [`modifiable`] states.
pub fn modify(file: &mut File)
    requires
        modifiable(old(file).data@),
    ensures
        final(file).data@ == modified(old(file).data@),
{
    let path = ["Data", "Career", "Progress"];
    assert(names(path@) =~= progress_path());
    let progress = match lookup(&mut file.data, path.as_slice()) {
        Some(progress) => progress,
        None => unreached(),
    };
    match progress {
        Data::Table(challenges) => {
            let ghost before = Data::views(challenges@);
            let mut i: usize = 0;
            assert(before =~= marked_first(before, 0));
            while i < challenges.len()
                invariant
                    i <= challenges.len(),
                    challenges@.len() == before.len(),
                    markable(before),
                    Data::views(challenges@) == marked_first(before, i as int),
                decreases challenges.len() - i,
            {
                let ghost previous = challenges@;
                let ghost challenge = before[i as int];
                assert(Data::views(previous)[i as int] == challenge);
                if is_late(&challenges[i].0) {
                    set_flag_in_each(&mut challenges[i].1, "bComplete", true);
                }
                proof {
                    let m = i as int;
                    let now = Data::views(challenges@);
                    let then = Data::views(previous);
                    assert(now[m] == marked(challenge));
                    assert forall|k: int| 0 <= k < now.len() && k != m implies now[k] == then[k] by {
                        assert(challenges@[k] == previous[k]);
                    }
                }
                i = i + 1;
                assert(Data::views(challenges@) =~= marked_first(before, i as int));
            }
            assert(Data::views(challenges@) =~= before.map_values(|c: (Value, Value)| marked(c)));
        },
        _ => unreached(),
    }
}

} // verus!
