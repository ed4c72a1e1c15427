//! What an archive holds, told before anything is extracted.

use vstd::prelude::*;

use crate::archive::directory::{read_central_directory, read_directory};
use crate::archive::entry::{
    entry_values, escapes, is_unsafe_path, ArchiveEntry, EntryValue, MAX_ARCHIVE_ENTRY_BYTES,
    METHOD_DEFLATE, METHOD_STORE,
};
use crate::archive::extract::{contents_of, extract_contents};
use crate::archive::names::text_values;
use crate::text::{
    decimal, decimal_text, json_bool, json_string, outcome, push_json_bool, push_json_string,
};

verus! {

/// Whether an entry can be extracted: its contents are there, can be read, are not too
/// large and match their checksum.
pub open spec fn is_extractable(bytes: Seq<u8>, entry: EntryValue) -> bool {
    contents_of(bytes, entry, MAX_ARCHIVE_ENTRY_BYTES) is Ok
}

/// Which of the entries can be extracted.
pub open spec fn extractable_entries(bytes: Seq<u8>, entries: Seq<EntryValue>) -> Seq<bool> {
    entries.map_values(|entry: EntryValue| is_extractable(bytes, entry))
}

/// One entry as JSON.
pub open spec fn entry_json(entry: EntryValue, extractable: bool) -> Seq<char> {
    "{\"name\":"@ + json_string(entry.name) + ",\"size\":"@ + decimal(entry.size as nat)
        + ",\"compressed\":"@ + decimal(entry.compressed_size as nat) + ",\"is_dir\":"@
        + json_bool(entry.is_directory()) + ",\"unsafe_path\":"@ + json_bool(escapes(entry.name))
        + ",\"encrypted\":"@ + json_bool(entry.encrypted) + ",\"duplicate_name\":"@ + json_bool(
        entry.duplicate_name,
    ) + ",\"extractable\":"@ + json_bool(extractable) + "}"@
}

/// Texts with commas between them.
pub open spec fn with_commas(texts: Seq<Seq<char>>) -> Seq<char>
    decreases texts.len(),
{
    if texts.len() == 0 {
        Seq::empty()
    } else if texts.len() == 1 {
        texts[0]
    } else {
        with_commas(texts.drop_last()) + ","@ + texts.last()
    }
}

/// The entries as JSON, one object for each entry that the archive contains.
pub open spec fn entries_json(entries: Seq<EntryValue>, extractable: Seq<bool>) -> Seq<Seq<char>> {
    Seq::new(entries.len(), |i: int| entry_json(entries[i], extractable[i]))
}

/// Whether two entries share a name.
pub open spec fn some_repeat(entries: Seq<EntryValue>) -> bool {
    exists|i: int| 0 <= i < entries.len() && (#[trigger] entries[i]).duplicate_name
}

/// Whether an entry is password-protected.
pub open spec fn some_encrypted(entries: Seq<EntryValue>) -> bool {
    exists|i: int| 0 <= i < entries.len() && (#[trigger] entries[i]).encrypted
}

/// Whether an entry's method is neither Store nor Deflate.
pub open spec fn uses_other_method(entry: EntryValue) -> bool {
    entry.method != METHOD_STORE && entry.method != METHOD_DEFLATE
}

/// Whether some entry's method is neither Store nor Deflate.
pub open spec fn some_other_method(entries: Seq<EntryValue>) -> bool {
    exists|i: int| 0 <= i < entries.len() && uses_other_method(#[trigger] entries[i])
}

/// Whether some entry is too large to extract.
pub open spec fn some_too_large(entries: Seq<EntryValue>) -> bool {
    exists|i: int| 0 <= i < entries.len() && (#[trigger] entries[i]).size > MAX_ARCHIVE_ENTRY_BYTES
}

/// A sentence, when it applies.
pub open spec fn sentence_if(applies: bool, sentence: Seq<char>) -> Seq<Seq<char>> {
    if applies {
        seq![json_string(sentence)]
    } else {
        Seq::empty()
    }
}

/// What will keep an entry from being extracted, or from being told apart.
pub open spec fn warnings_json(entries: Seq<EntryValue>) -> Seq<Seq<char>> {
    sentence_if(
        some_repeat(entries),
        "This archive contains several files with the same name. They are listed separately and each one downloads its own contents."@,
    ) + sentence_if(
        some_encrypted(entries),
        "Some files in this archive are password-protected and cannot be extracted here. The other files are unaffected."@,
    ) + sentence_if(
        some_other_method(entries),
        "Some files in this archive use a compression method this tool cannot read (only Store and Deflate are supported). The other files are unaffected."@,
    ) + sentence_if(
        some_too_large(entries),
        "Some files in this archive are larger than the 512 MB this tool can extract in one piece. The other files are unaffected."@,
    )
}

/// A listing as JSON.
pub open spec fn listing(entries: Seq<EntryValue>, extractable: Seq<bool>, total: u64) -> Seq<
    char,
> {
    "{\"entries\":["@ + with_commas(entries_json(entries, extractable)) + "],\"total_size\":"@
        + decimal(total as nat) + ",\"warnings\":["@ + with_commas(
        warnings_json(entries),
    ) + "]}"@
}

/// The listing of a file.
pub open spec fn listed_archive(bytes: Seq<u8>) -> Result<Seq<char>, Seq<char>> {
    if bytes.len() == 0 {
        Err("Choose a ZIP archive to open."@)
    } else {
        match read_directory(bytes) {
            Err(error) => Err(error),
            Ok((entries, total)) => Ok(
                listing(entries, extractable_entries(bytes, entries), total),
            ),
        }
    }
}

/// Find out which of the entries can be extracted.
pub fn find_extractable(bytes: &[u8], entries: &Vec<ArchiveEntry>) -> (extractable: Vec<bool>)
    ensures
        extractable@ == extractable_entries(bytes@, entry_values(entries@)),
{
    let mut extractable: Vec<bool> = Vec::new();
    let mut i: usize = 0;
    while i < entries.len()
        invariant
            i <= entries@.len(),
            extractable@.len() == i,
            forall|j: int|
                0 <= j < i ==> #[trigger] extractable@[j] == is_extractable(
                    bytes@,
                    entry_values(entries@)[j],
                ),
        decreases entries.len() - i,
    {
        extractable.push(extract_contents(bytes, &entries[i], MAX_ARCHIVE_ENTRY_BYTES).is_ok());
        i += 1;
    }
    assert(extractable@ =~= extractable_entries(bytes@, entry_values(entries@)));
    extractable
}

fn entry_text(entry: &ArchiveEntry, extractable: bool) -> (text: String)
    ensures
        text@ == entry_json(entry@, extractable),
{
    let mut text = "{\"name\":".to_owned();
    push_json_string(&mut text, entry.name.as_str());
    text.append(",\"size\":");
    text.append(decimal_text(entry.size).as_str());
    text.append(",\"compressed\":");
    text.append(decimal_text(entry.compressed_size).as_str());
    text.append(",\"is_dir\":");
    push_json_bool(&mut text, entry.is_dir());
    text.append(",\"unsafe_path\":");
    push_json_bool(&mut text, is_unsafe_path(entry.name.as_str()));
    text.append(",\"encrypted\":");
    push_json_bool(&mut text, entry.encrypted);
    text.append(",\"duplicate_name\":");
    push_json_bool(&mut text, entry.duplicate_name);
    text.append(",\"extractable\":");
    push_json_bool(&mut text, extractable);
    text.append("}");
    text
}

fn push_entries_json(output: &mut String, entries: &Vec<ArchiveEntry>, extractable: &Vec<bool>)
    requires
        extractable@.len() == entries@.len(),
    ensures
        final(output)@ == old(output)@ + with_commas(
            entries_json(entry_values(entries@), extractable@),
        ),
{
    let ghost start = output@;
    let ghost texts = entries_json(entry_values(entries@), extractable@);
    assert(start + with_commas(texts.take(0)) =~= start);
    let mut i: usize = 0;
    while i < entries.len()
        invariant
            i <= entries@.len(),
            extractable@.len() == entries@.len(),
            texts == entries_json(entry_values(entries@), extractable@),
            output@ == start + with_commas(texts.take(i as int)),
        decreases entries.len() - i,
    {
        assert(texts.take(i + 1).drop_last() =~= texts.take(i as int));
        assert(texts.take(i + 1).last() == entry_json(entries@[i as int]@, extractable@[i as int]));
        if i != 0 {
            output.append(",");
        }
        output.append(entry_text(&entries[i], extractable[i]).as_str());
        assert(output@ =~= start + with_commas(texts.take(i + 1)));
        i += 1;
    }
    assert(texts.take(entries@.len() as int) =~= texts);
}

/// What the entries give cause to warn of.
struct Causes {
    repeat: bool,
    encrypted: bool,
    other_method: bool,
    too_large: bool,
}

fn find_causes(entries: &Vec<ArchiveEntry>) -> (causes: Causes)
    ensures
        causes.repeat == some_repeat(entry_values(entries@)),
        causes.encrypted == some_encrypted(entry_values(entries@)),
        causes.other_method == some_other_method(entry_values(entries@)),
        causes.too_large == some_too_large(entry_values(entries@)),
{
    let ghost values = entry_values(entries@);
    let mut repeat = false;
    let mut encrypted = false;
    let mut other_method = false;
    let mut too_large = false;
    let mut i: usize = 0;
    assert(values.take(0).len() == 0);
    while i < entries.len()
        invariant
            i <= entries@.len(),
            values == entry_values(entries@),
            repeat == some_repeat(values.take(i as int)),
            encrypted == some_encrypted(values.take(i as int)),
            other_method == some_other_method(values.take(i as int)),
            too_large == some_too_large(values.take(i as int)),
        decreases entries.len() - i,
    {
        let entry = &entries[i];
        let ghost before = values.take(i as int);
        let ghost after = values.take(i + 1);
        proof {
            assert(after[i as int] == entry@);
            assert forall|j: int| 0 <= j < i implies #[trigger] after[j] == before[j] by {}
            lemma_one_more(values, i as int);
        }
        repeat = repeat || entry.duplicate_name;
        encrypted = encrypted || entry.encrypted;
        other_method = other_method || (entry.method != METHOD_STORE && entry.method
            != METHOD_DEFLATE);
        too_large = too_large || entry.size > MAX_ARCHIVE_ENTRY_BYTES;
        i += 1;
    }
    assert(values.take(entries@.len() as int) =~= values);
    Causes { repeat, encrypted, other_method, too_large }
}

proof fn lemma_one_more(values: Seq<EntryValue>, i: int)
    requires
        0 <= i < values.len(),
    ensures
        some_repeat(values.take(i + 1)) == (some_repeat(values.take(i))
            || values[i].duplicate_name),
        some_encrypted(values.take(i + 1)) == (some_encrypted(values.take(i))
            || values[i].encrypted),
        some_other_method(values.take(i + 1)) == (some_other_method(values.take(i))
            || uses_other_method(values[i])),
        some_too_large(values.take(i + 1)) == (some_too_large(values.take(i)) || values[i].size
            > MAX_ARCHIVE_ENTRY_BYTES),
{
    let before = values.take(i);
    let after = values.take(i + 1);
    assert(after[i] == values[i]);
    assert forall|j: int| 0 <= j < i implies #[trigger] before[j] == after[j] by {}
    if some_repeat(before) {
        let j = choose|j: int| 0 <= j < before.len() && (#[trigger] before[j]).duplicate_name;
        assert(after[j].duplicate_name);
    }
    if some_repeat(after) {
        let j = choose|j: int| 0 <= j < after.len() && (#[trigger] after[j]).duplicate_name;
        if j < i {
            assert(before[j].duplicate_name);
        }
    }
    if some_encrypted(before) {
        let j = choose|j: int| 0 <= j < before.len() && (#[trigger] before[j]).encrypted;
        assert(after[j].encrypted);
    }
    if some_encrypted(after) {
        let j = choose|j: int| 0 <= j < after.len() && (#[trigger] after[j]).encrypted;
        if j < i {
            assert(before[j].encrypted);
        }
    }
    if some_other_method(before) {
        let j = choose|j: int| 0 <= j < before.len() && uses_other_method(#[trigger] before[j]);
        assert(uses_other_method(after[j]));
    }
    if some_other_method(after) {
        let j = choose|j: int| 0 <= j < after.len() && uses_other_method(#[trigger] after[j]);
        if j < i {
            assert(uses_other_method(before[j]));
        }
    }
    if some_too_large(before) {
        let j = choose|j: int|
            0 <= j < before.len() && (#[trigger] before[j]).size > MAX_ARCHIVE_ENTRY_BYTES;
        assert(after[j].size > MAX_ARCHIVE_ENTRY_BYTES);
    }
    if some_too_large(after) {
        let j = choose|j: int|
            0 <= j < after.len() && (#[trigger] after[j]).size > MAX_ARCHIVE_ENTRY_BYTES;
        if j < i {
            assert(before[j].size > MAX_ARCHIVE_ENTRY_BYTES);
        }
    }
}

fn add_sentence(sentences: &mut Vec<String>, applies: bool, sentence: &str)
    ensures
        text_values(final(sentences)@) == text_values(old(sentences)@) + sentence_if(
            applies,
            sentence@,
        ),
{
    let ghost before = text_values(sentences@);
    if applies {
        let mut text = String::new();
        push_json_string(&mut text, sentence);
        assert(text@ =~= json_string(sentence@));
        sentences.push(text);
    }
    assert(text_values(sentences@) =~= before + sentence_if(applies, sentence@));
}

/// What will keep an entry from being extracted, or from being told apart.
fn find_warnings(entries: &Vec<ArchiveEntry>) -> (warnings: Vec<String>)
    ensures
        text_values(warnings@) == warnings_json(entry_values(entries@)),
{
    let causes = find_causes(entries);
    let mut warnings: Vec<String> = Vec::new();
    assert(text_values(warnings@) =~= Seq::<Seq<char>>::empty());
    add_sentence(
        &mut warnings,
        causes.repeat,
        "This archive contains several files with the same name. They are listed separately and each one downloads its own contents.",
    );
    add_sentence(
        &mut warnings,
        causes.encrypted,
        "Some files in this archive are password-protected and cannot be extracted here. The other files are unaffected.",
    );
    add_sentence(
        &mut warnings,
        causes.other_method,
        "Some files in this archive use a compression method this tool cannot read (only Store and Deflate are supported). The other files are unaffected.",
    );
    add_sentence(
        &mut warnings,
        causes.too_large,
        "Some files in this archive are larger than the 512 MB this tool can extract in one piece. The other files are unaffected.",
    );
    assert(text_values(warnings@) =~= warnings_json(entry_values(entries@)));
    warnings
}

fn push_with_commas(output: &mut String, texts: &Vec<String>)
    ensures
        final(output)@ == old(output)@ + with_commas(text_values(texts@)),
{
    let ghost start = output@;
    let ghost values = text_values(texts@);
    assert(start + with_commas(values.take(0)) =~= start);
    let mut i: usize = 0;
    while i < texts.len()
        invariant
            i <= texts@.len(),
            values == text_values(texts@),
            output@ == start + with_commas(values.take(i as int)),
        decreases texts.len() - i,
    {
        assert(values.take(i + 1).drop_last() =~= values.take(i as int));
        assert(values.take(i + 1).last() == texts@[i as int]@);
        if i != 0 {
            output.append(",");
        }
        output.append(texts[i].as_str());
        assert(output@ =~= start + with_commas(values.take(i + 1)));
        i += 1;
    }
    assert(values.take(texts@.len() as int) =~= values);
}

/// A listing as JSON.
pub fn write_listing(entries: &Vec<ArchiveEntry>, extractable: &Vec<bool>, total: u64) -> (text:
    String)
    requires
        extractable@.len() == entries@.len(),
    ensures
        text@ == listing(entry_values(entries@), extractable@, total),
{
    let mut output = "{\"entries\":[".to_owned();
    push_entries_json(&mut output, entries, extractable);
    output.append("],\"total_size\":");
    output.append(decimal_text(total).as_str());
    output.append(",\"warnings\":[");
    push_with_commas(&mut output, &find_warnings(entries));
    output.append("]}");
    output
}

/// Return the entry metadata needed by the extract interface, with one JSON object
/// for each entry the archive actually contains and a `warnings` list stating
/// anything that will keep an entry from being extracted.
///
/// Listing tells the whole truth up front: an entry that cannot be extracted says
/// so here, rather than looking fine until the download is attempted.
pub fn list_archive(bytes: &[u8]) -> (text: Result<String, String>)
    ensures
        outcome(text) == listed_archive(bytes@),
{
    if bytes.len() == 0 {
        return Err("Choose a ZIP archive to open.".to_owned());
    }
    match read_central_directory(bytes) {
        Err(error) => Err(error),
        Ok((entries, total)) => {
            let extractable = find_extractable(bytes, &entries);
            Ok(write_listing(&entries, &extractable, total))
        },
    }
}

/// List a ZIP archive's entries as JSON.
pub fn list_zip(bytes: &[u8]) -> (text: Result<String, String>)
    ensures
        outcome(text) == listed_archive(bytes@),
{
    list_archive(bytes)
}

} // verus!
