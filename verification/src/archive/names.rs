//! The names that files are archived under: no two alike.

use vstd::prelude::*;
use vstd::set_lib::{lemma_len_subset, lemma_map_size, set_int_range};

use crate::text::{characters, decimal, decimal_text, digit, same_text, text_between};

verus! {

/// Whether a character ends a directory in a path.
pub open spec fn is_separator(c: char) -> bool {
    c == '/' || c == '\\'
}

/// Where the file name begins: behind the last separator before `end`.
pub open spec fn name_start(path: Seq<char>, end: int) -> int
    decreases end,
{
    if end <= 0 {
        0
    } else if is_separator(path[end - 1]) {
        end
    } else {
        name_start(path, end - 1)
    }
}

/// Where the extension begins: at the last dot before `end` that is not the first
/// character of the file name. `whole` is where the path ends.
pub open spec fn extension_start(path: Seq<char>, start: int, end: int, whole: int) -> int
    decreases end - start,
{
    if end <= start {
        whole
    } else if path[end - 1] == '.' {
        if end - 1 > start {
            end - 1
        } else {
            whole
        }
    } else {
        extension_start(path, start, end - 1, whole)
    }
}

/// Where a number is put into a path: before the extension of its file name.
pub open spec fn number_place(path: Seq<char>) -> int {
    let length = path.len() as int;
    extension_start(path, name_start(path, length), length, length)
}

/// A path with a number put before its extension.
pub open spec fn numbered_name(path: Seq<char>, number: nat) -> Seq<char> {
    let place = number_place(path);
    path.take(place) + "-"@ + decimal(number) + path.skip(place)
}

proof fn lemma_name_start(path: Seq<char>, end: int)
    requires
        0 <= end <= path.len(),
    ensures
        0 <= name_start(path, end) <= end,
    decreases end,
{
    if end > 0 && !is_separator(path[end - 1]) {
        lemma_name_start(path, end - 1);
    }
}

proof fn lemma_extension_start(path: Seq<char>, start: int, end: int, whole: int)
    requires
        0 <= start,
        end <= whole,
    ensures
        0 <= extension_start(path, start, end, whole) <= whole || whole < 0,
    decreases end - start,
{
    if end > start && path[end - 1] != '.' {
        lemma_extension_start(path, start, end - 1, whole);
    }
}

proof fn lemma_number_place(path: Seq<char>)
    ensures
        0 <= number_place(path) <= path.len(),
{
    let length = path.len() as int;
    lemma_name_start(path, length);
    lemma_extension_start(path, name_start(path, length), length, length);
}

fn find_number_place(chars: &Vec<char>) -> (place: usize)
    ensures
        place == number_place(chars@),
        place <= chars@.len(),
{
    let ghost length = chars@.len() as int;
    let mut start: usize = chars.len();
    while start > 0 && chars[start - 1] != '/' && chars[start - 1] != '\\'
        invariant
            length == chars@.len(),
            start <= chars@.len(),
            name_start(chars@, length) == name_start(chars@, start as int),
        decreases start,
    {
        start -= 1;
    }
    let mut end: usize = chars.len();
    while end > start && chars[end - 1] != '.'
        invariant
            length == chars@.len(),
            start <= end <= chars@.len(),
            extension_start(chars@, start as int, length, length) == extension_start(
                chars@,
                start as int,
                end as int,
                length,
            ),
        decreases end,
    {
        end -= 1;
    }
    if end > start && end - 1 > start {
        end - 1
    } else {
        chars.len()
    }
}

/// Put a number before the extension of a path.
pub fn duplicate_name(name: &str, suffix: u64) -> (numbered: String)
    ensures
        numbered@ == numbered_name(name@, suffix as nat),
{
    let chars = characters(name);
    let place = find_number_place(&chars);
    let mut numbered = text_between(&chars, 0, place);
    numbered.append("-");
    numbered.append(decimal_text(suffix).as_str());
    numbered.append(text_between(&chars, place, chars.len()).as_str());
    assert(numbered@ =~= numbered_name(name@, suffix as nat));
    numbered
}

/// A name to archive a file under: `file` where none was given.
pub open spec fn given_name(name: Seq<char>) -> Seq<char> {
    if name.len() == 0 {
        "file"@
    } else {
        name
    }
}

/// Whether `number` is the first whose name is not used, counting from one.
pub open spec fn is_first_free(used: Seq<Seq<char>>, name: Seq<char>, number: nat) -> bool {
    &&& number >= 1
    &&& !used.contains(numbered_name(name, number))
    &&& forall|earlier: nat|
        1 <= earlier < number ==> used.contains(#[trigger] numbered_name(name, earlier))
}

/// The name itself when it is not used, and otherwise the first numbered one that
/// is not.
pub open spec fn free_name(used: Seq<Seq<char>>, name: Seq<char>) -> Seq<char> {
    if !used.contains(name) {
        name
    } else {
        numbered_name(name, choose|number: nat| is_first_free(used, name, number))
    }
}

/// The names that files are archived under, in order.
pub open spec fn unique_names_of(names: Seq<Seq<char>>) -> Seq<Seq<char>>
    decreases names.len(),
{
    if names.len() == 0 {
        Seq::empty()
    } else {
        let used = unique_names_of(names.drop_last());
        used.push(free_name(used, given_name(names.last())))
    }
}

/// Texts by their values.
pub open spec fn text_values(texts: Seq<String>) -> Seq<Seq<char>> {
    texts.map_values(|text: String| text@)
}

/// Different numbers are written differently.
pub proof fn decimals_differ(left: nat, right: nat)
    requires
        left != right,
    ensures
        decimal(left) != decimal(right),
    decreases left,
{
    if left < 10 && right < 10 {
        assert(decimal(left)[0] != decimal(right)[0]);
    } else if left < 10 {
        lemma_decimal_length(right);
        assert(decimal(left).len() == 1);
    } else if right < 10 {
        lemma_decimal_length(left);
        assert(decimal(right).len() == 1);
    } else {
        if decimal(left) == decimal(right) {
            assert(decimal(left).last() == digit(left % 10));
            assert(decimal(right).last() == digit(right % 10));
            assert(left % 10 == right % 10);
            assert(left / 10 != right / 10);
            decimals_differ(left / 10, right / 10);
            assert(decimal(left).drop_last() =~= decimal(left / 10));
            assert(decimal(right).drop_last() =~= decimal(right / 10));
        }
    }
}

proof fn lemma_decimal_length(n: nat)
    ensures
        n >= 10 ==> decimal(n).len() >= 2,
        decimal(n).len() >= 1,
    decreases n,
{
    if n >= 10 {
        lemma_decimal_length(n / 10);
    }
}

/// Different numbers make different names.
pub proof fn numbered_names_differ(name: Seq<char>, left: nat, right: nat)
    requires
        left != right,
    ensures
        numbered_name(name, left) != numbered_name(name, right),
{
    lemma_number_place(name);
    decimals_differ(left, right);
    let place = number_place(name);
    let one = numbered_name(name, left);
    let two = numbered_name(name, right);
    reveal_strlit("-");
    if one == two {
        assert(one.len() == two.len());
        assert(decimal(left).len() == decimal(right).len());
        let digits = decimal(left).len() as int;
        assert(one.subrange(place + 1, place + 1 + digits) =~= decimal(left));
        assert(two.subrange(place + 1, place + 1 + digits) =~= decimal(right));
    }
}

/// A name and its numbers cannot take more names than are used.
proof fn lemma_numbers_run_out(used: Seq<Seq<char>>, name: Seq<char>, number: nat)
    requires
        number >= 1,
        used.contains(name),
        forall|earlier: nat|
            1 <= earlier < number ==> used.contains(#[trigger] numbered_name(name, earlier)),
    ensures
        number <= used.len(),
{
    let numbers = set_int_range(1, number as int);
    let make = |n: int| numbered_name(name, n as nat);
    let taken = numbers.map(make);
    vstd::set_lib::lemma_int_range(1, number as int);
    assert forall|a: int, b: int|
        numbers.contains(a) && numbers.contains(b) && make(a) == make(b) implies a == b by {
        if a != b {
            numbered_names_differ(name, a as nat, b as nat);
        }
    }
    assert(vstd::relations::injective_on(make, numbers));
    lemma_map_size(numbers, taken, make);
    let all = taken.insert(name);
    assert forall|text: Seq<char>| all.contains(text) implies used.to_set().contains(text) by {
        if text != name {
            let n = choose|n: int| numbers.contains(n) && text == make(n);
            assert(used.contains(numbered_name(name, n as nat)));
        }
    }
    assert(!taken.contains(name)) by {
        if taken.contains(name) {
            let n = choose|n: int| numbers.contains(n) && name == make(n);
            lemma_number_place(name);
            lemma_decimal_length(n as nat);
            assert(numbered_name(name, n as nat).len() > name.len());
        }
    }
    used.lemma_cardinality_of_set();
    vstd::seq_lib::seq_to_set_is_finite(used);
    lemma_len_subset(all, used.to_set());
}

proof fn lemma_first_free(used: Seq<Seq<char>>, name: Seq<char>, number: nat)
    requires
        used.contains(name),
        is_first_free(used, name, number),
    ensures
        free_name(used, name) == numbered_name(name, number),
{
    let chosen = choose|n: nat| is_first_free(used, name, n);
    assert(is_first_free(used, name, chosen));
    if chosen < number {
        assert(used.contains(numbered_name(name, chosen)));
    }
    if number < chosen {
        assert(used.contains(numbered_name(name, number)));
    }
}

fn is_used(used: &Vec<String>, name: &str) -> (found: bool)
    ensures
        found == text_values(used@).contains(name@),
{
    let mut i: usize = 0;
    while i < used.len()
        invariant
            i <= used@.len(),
            forall|j: int| 0 <= j < i ==> text_values(used@)[j] != name@,
        decreases used.len() - i,
    {
        if same_text(used[i].as_str(), name) {
            assert(text_values(used@)[i as int] == name@);
            return true;
        }
        i += 1;
    }
    false
}

fn pick_free_name(used: &Vec<String>, name: &str) -> (free: String)
    ensures
        free@ == free_name(text_values(used@), name@),
        !text_values(used@).contains(free@),
{
    let ghost values = text_values(used@);
    if !is_used(used, name) {
        return name.to_owned();
    }
    let count: usize = used.len();
    let mut suffix: u64 = 1;
    let mut candidate = duplicate_name(name, suffix);
    while is_used(used, candidate.as_str())
        invariant
            values == text_values(used@),
            values.len() == count,
            values.contains(name@),
            suffix >= 1,
            candidate@ == numbered_name(name@, suffix as nat),
            forall|earlier: nat|
                1 <= earlier < suffix ==> values.contains(
                    #[trigger] numbered_name(name@, earlier),
                ),
        decreases count - suffix,
    {
        proof {
            lemma_numbers_run_out(values, name@, (suffix + 1) as nat);
        }
        suffix += 1;
        candidate = duplicate_name(name, suffix);
    }
    proof {
        lemma_first_free(values, name@, suffix as nat);
    }
    candidate
}

/// The names that files are archived under: each as it was given, unless an
/// earlier file has it, in which case it gets a number.
pub fn unique_names(names: &Vec<String>) -> (unique: Vec<String>)
    ensures
        text_values(unique@) == unique_names_of(text_values(names@)),
{
    let ghost values = text_values(names@);
    let mut unique: Vec<String> = Vec::new();
    assert(text_values(unique@) =~= Seq::<Seq<char>>::empty());
    let mut i: usize = 0;
    while i < names.len()
        invariant
            i <= names@.len(),
            values == text_values(names@),
            text_values(unique@) == unique_names_of(values.take(i as int)),
        decreases names.len() - i,
    {
        assert(values.take(i + 1).drop_last() =~= values.take(i as int));
        assert(values.take(i + 1).last() == names@[i as int]@);
        let given = if names[i].as_str().unicode_len() == 0 {
            "file"
        } else {
            names[i].as_str()
        };
        let free = pick_free_name(&unique, given);
        let ghost before = text_values(unique@);
        unique.push(free);
        assert(text_values(unique@) =~= before.push(free@));
        i += 1;
    }
    assert(values.take(names@.len() as int) =~= values);
    unique
}

/// There is a name for each file, and no two are alike.
pub proof fn archive_names_are_distinct(names: Seq<Seq<char>>)
    ensures
        unique_names_of(names).len() == names.len(),
        unique_names_of(names).no_duplicates(),
    decreases names.len(),
{
    if names.len() > 0 {
        archive_names_are_distinct(names.drop_last());
        let used = unique_names_of(names.drop_last());
        let name = given_name(names.last());
        lemma_free_name_is_free(used, name);
    }
}

/// A free name always exists and is not used.
proof fn lemma_free_name_is_free(used: Seq<Seq<char>>, name: Seq<char>)
    ensures
        !used.contains(free_name(used, name)),
{
    if used.contains(name) {
        lemma_some_free(used, name, 1);
        let chosen = choose|n: nat| is_first_free(used, name, n);
        assert(is_first_free(used, name, chosen));
    }
}

proof fn lemma_some_free(used: Seq<Seq<char>>, name: Seq<char>, number: nat)
    requires
        number >= 1,
        used.contains(name),
        forall|earlier: nat|
            1 <= earlier < number ==> used.contains(#[trigger] numbered_name(name, earlier)),
    ensures
        exists|n: nat| is_first_free(used, name, n),
    decreases used.len() + 1 - number,
{
    lemma_numbers_run_out(used, name, number);
    if used.contains(numbered_name(name, number)) {
        lemma_numbers_run_out(used, name, number + 1);
        lemma_some_free(used, name, number + 1);
    } else {
        assert(is_first_free(used, name, number));
    }
}

/// A file keeps the name it was given when no earlier file is archived under it.
pub proof fn unused_name_is_kept(names: Seq<Seq<char>>, i: int)
    requires
        0 <= i < names.len(),
        !unique_names_of(names.take(i)).contains(given_name(names[i])),
    ensures
        unique_names_of(names)[i] == given_name(names[i]),
    decreases names.len(),
{
    archive_names_are_distinct(names.drop_last());
    if i == names.len() - 1 {
        assert(names.take(i) =~= names.drop_last());
    } else {
        assert(names.drop_last().take(i) =~= names.take(i));
        assert(names.drop_last()[i] == names[i]);
        unused_name_is_kept(names.drop_last(), i);
    }
}

} // verus!
