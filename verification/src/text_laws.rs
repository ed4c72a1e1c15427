//! What numbers and lists look like once they are written.

use vstd::prelude::*;

use crate::archive::list::with_commas;
use crate::metadata::file::{item_json, items_json};
use crate::metadata::item::ItemValue;
use crate::ocr::engine::accepted_blob;
use crate::ocr::input::accepted_length;
use crate::text::{
    ascii_upper, contains_text, decimal, digit, mentions_location, signed_decimal, truncated,
    uppercase, zero_padded,
};

verus! {

/// The number that digits stand for.
pub open spec fn number_of(digits: Seq<char>) -> int
    decreases digits.len(),
{
    if digits.len() == 0 {
        0
    } else {
        number_of(digits.drop_last()) * 10 + (digits.last() as int - '0' as int)
    }
}

/// A number that is written in decimal is read back, has digits alone, and begins with a zero
/// only where it is zero.
pub proof fn decimals_are_read_back(n: nat)
    ensures
        number_of(decimal(n)) == n,
        decimal(n).len() > 0,
        forall|i: int| 0 <= i < decimal(n).len() ==> '0' <= #[trigger] decimal(n)[i] <= '9',
        n > 0 ==> decimal(n)[0] != '0',
    decreases n,
{
    if n < 10 {
        assert(decimal(n) =~= seq![digit(n)]);
        assert(decimal(n).drop_last() =~= Seq::empty());
        assert(number_of(decimal(n).drop_last()) == 0);
    } else {
        let shorter = decimal(n / 10);
        decimals_are_read_back(n / 10);
        assert(decimal(n).drop_last() =~= shorter);
        assert forall|i: int| 0 <= i < decimal(n).len() implies '0' <= #[trigger] decimal(n)[i]
            <= '9' by {
            if i < shorter.len() {
                assert(decimal(n)[i] == shorter[i]);
            }
        }
        assert(decimal(n)[0] == shorter[0]);
    }
}

/// A negative number is written as a minus sign and its amount.
pub proof fn signs_are_written(n: int)
    ensures
        n >= 0 ==> number_of(signed_decimal(n)) == n,
        n < 0 ==> signed_decimal(n)[0] == '-' && number_of(signed_decimal(n).skip(1)) == -n,
{
    if n >= 0 {
        decimals_are_read_back(n as nat);
    } else {
        decimals_are_read_back((-n) as nat);
        assert(signed_decimal(n).skip(1) =~= decimal((-n) as nat));
    }
}

/// Padding puts zeros in front until a text is long enough, and changes nothing else.
pub proof fn padding_keeps_the_text(text: Seq<char>, width: nat)
    ensures
        ({
            let padded = zero_padded(text, width);
            &&& padded.len() >= width && padded.len() >= text.len()
            &&& padded.len() == width || padded == text
            &&& padded.skip(padded.len() - text.len()) == text
            &&& forall|i: int|
                0 <= i < padded.len() - text.len() ==> #[trigger] padded[i] == '0'
        }),
{
    let padded = zero_padded(text, width);
    assert(padded.skip(padded.len() - text.len()) =~= text);
}

/// A text of at most one hundred and sixty characters is shown whole. A longer one is cut
/// there, and the cut is marked.
pub proof fn long_texts_are_cut(text: Seq<char>)
    ensures
        text.len() <= 160 ==> truncated(text) == text,
        text.len() > 160 ==> truncated(text).len() == 161 && truncated(text).take(160)
            == text.take(160) && truncated(text).last() == '…',
{
    if text.len() > 160 {
        assert(truncated(text).take(160) =~= text.take(160));
    }
}

proof fn lemma_upper_twice(text: Seq<char>)
    ensures
        uppercase(uppercase(text)) == uppercase(text),
{
    assert forall|i: int| 0 <= i < text.len() implies uppercase(uppercase(text))[i] == uppercase(
        text,
    )[i] by {
        assert(ascii_upper(ascii_upper(text[i])) == ascii_upper(text[i]));
    }
    assert(uppercase(uppercase(text)) =~= uppercase(text));
}

/// Whether a text mentions a location does not depend on the case of its letters, and a text
/// around one that does mentions it too.
pub proof fn locations_are_found_in_any_case(
    before: Seq<char>,
    text: Seq<char>,
    after: Seq<char>,
)
    ensures
        mentions_location(uppercase(text)) == mentions_location(text),
        mentions_location(text) ==> mentions_location(before + text + after),
        uppercase(text) == "GPS"@ || uppercase(text) == "GEOLOCATION"@ ==> mentions_location(text),
{
    lemma_upper_twice(text);
    let whole = uppercase(before + text + after);
    let inner = uppercase(text);
    assert forall|part: Seq<char>| contains_text(inner, part) implies #[trigger] contains_text(
        whole,
        part,
    ) by {
        let i = choose|i: int|
            0 <= i && i + part.len() <= inner.len() && #[trigger] inner.subrange(
                i,
                i + part.len(),
            ) == part;
        let j = before.len() + i;
        assert(whole.subrange(j, j + part.len()) =~= inner.subrange(i, i + part.len()));
    }
    assert(contains_text(inner, "GPS"@) ==> contains_text(whole, "GPS"@));
    assert(contains_text(inner, "GEOLOCATION"@) ==> contains_text(whole, "GEOLOCATION"@));
    assert(contains_text(inner, inner)) by {
        assert(inner.subrange(0, 0int + inner.len()) =~= inner);
    }
}

/// A list with commas is that of its first part, a comma, and that of the rest; one text
/// stands alone.
pub proof fn commas_stand_between(first: Seq<Seq<char>>, rest: Seq<Seq<char>>)
    ensures
        first.len() > 0 && rest.len() > 0 ==> with_commas(first + rest) == with_commas(first)
            + ","@ + with_commas(rest),
        first.len() == 1 ==> with_commas(first) == first[0],
        with_commas(Seq::empty()) == Seq::<char>::empty(),
    decreases rest.len(),
{
    if first.len() > 0 && rest.len() > 0 {
        let all = first + rest;
        assert(all.drop_last() =~= first + rest.drop_last());
        assert(all.last() == rest.last());
        if rest.len() > 1 {
            commas_stand_between(first, rest.drop_last());
            assert(with_commas(all) =~= with_commas(first) + ","@ + with_commas(rest));
        } else {
            assert(first + rest.drop_last() =~= first);
        }
    }
}

/// The items of a report stand in order with commas between them.
pub proof fn reported_items_stand_in_order(first: Seq<ItemValue>, rest: Seq<ItemValue>)
    ensures
        first.len() > 0 && rest.len() > 0 ==> items_json(first + rest) == items_json(first) + ","@
            + items_json(rest),
        first.len() == 1 ==> items_json(first) == item_json(first[0]),
    decreases rest.len(),
{
    if first.len() > 0 && rest.len() > 0 {
        let all = first + rest;
        assert(all.drop_last() =~= first + rest.drop_last());
        assert(all.last() == rest.last());
        if rest.len() > 1 {
            reported_items_stand_in_order(first, rest.drop_last());
            assert(items_json(all) =~= items_json(first) + ","@ + items_json(rest));
        } else {
            assert(first + rest.drop_last() =~= first);
        }
    }
}

/// Text is read from an image of one byte to sixty-four mebibytes, with models of one byte to
/// thirty-two mebibytes.
pub proof fn modest_inputs_are_read(name: Seq<char>, length: nat)
    ensures
        accepted_length(length) is Ok <==> 0 < length <= 64 * 1024 * 1024,
        accepted_blob(name, length) is Ok <==> 0 < length <= 32 * 1024 * 1024,
{
}

} // verus!
