//! XMP packets inside stream content: finding them and cutting them out.

use vstd::prelude::*;

use crate::bytes::{
    copy_bytes, find, find_from, find_subslice, find_subslice_from, lemma_find_from, push_range,
    utf8,
};

verus! {

/// Guard against a pathological stream forcing an unbounded excision loop.
pub const MAX_XMP_REGIONS: usize = 64;

/// Whether a byte can follow the name in a tag.
pub open spec fn ends_tag_name(byte: u8) -> bool {
    byte == 0x20 || byte == 0x09 || byte == 0x0d || byte == 0x0a || byte == 0x3e || byte == 0x2f
}

/// Whether a byte can stand in a namespace prefix.
pub open spec fn is_prefix_byte(byte: u8) -> bool {
    0x30 <= byte <= 0x39 || 0x41 <= byte <= 0x5a || 0x61 <= byte <= 0x7a || byte == 0x5f || byte
        == 0x2d || byte == 0x2e
}

/// Where the namespace prefix begins that ends at `end`.
pub open spec fn prefix_start(content: Seq<u8>, end: int) -> int
    decreases end,
{
    if end > 0 && is_prefix_byte(content[end - 1]) {
        prefix_start(content, end - 1)
    } else {
        end
    }
}

/// Where the qualified name begins whose local name stands at `at`.
pub open spec fn qualified_start(content: Seq<u8>, at: int) -> int {
    if at > 0 && content[at - 1] == 0x3a {
        prefix_start(content, at - 1)
    } else {
        at
    }
}

/// The `<` of the tag whose local name stands at `at`, when it is one. A real tag
/// name ends at whitespace, `>` or `/`, which rejects matches inside attribute
/// values.
pub open spec fn tag_at(content: Seq<u8>, length: int, closing: bool, at: int) -> Option<int> {
    let start = qualified_start(content, at);
    if at + length >= content.len() || !ends_tag_name(content[at + length]) {
        None
    } else if closing {
        if start >= 2 && content[start - 2] == 0x3c && content[start - 1] == 0x2f {
            Some(start - 2)
        } else {
            None
        }
    } else if start >= 1 && content[start - 1] == 0x3c {
        Some(start - 1)
    } else {
        None
    }
}

/// The first tag with this local name whose name stands at or after `from`.
pub open spec fn tag_from(content: Seq<u8>, name: Seq<u8>, closing: bool, from: int) -> Option<int>
    decreases content.len() - from,
{
    if name.len() == 0 || from < 0 {
        None
    } else {
        proof {
            lemma_find_from(content, name, from);
        }
        match find_from(content, name, from) {
            Some(at) => match tag_at(content, name.len() as int, closing, at) {
                Some(open) => Some(open),
                None => tag_from(content, name, closing, at + 1),
            },
            None => None,
        }
    }
}

fn find_prefix_start(content: &[u8], end: usize) -> (start: usize)
    requires
        end <= content@.len(),
    ensures
        start == prefix_start(content@, end as int),
        start <= end,
{
    let mut start: usize = end;
    while start > 0 && ((0x30 <= content[start - 1] && content[start - 1] <= 0x39) || (0x41
        <= content[start - 1] && content[start - 1] <= 0x5a) || (0x61 <= content[start - 1]
        && content[start - 1] <= 0x7a) || content[start - 1] == 0x5f || content[start - 1] == 0x2d
        || content[start - 1] == 0x2e)
        invariant
            start <= end <= content@.len(),
            prefix_start(content@, end as int) == prefix_start(content@, start as int),
        decreases start,
    {
        start -= 1;
    }
    start
}

/// Locate an XML tag by local name, tolerating any namespace prefix
/// (`<x:xmpmeta`, `<foo:xmpmeta`, `<xmpmeta`). Returns the index of the `<`.
pub fn find_xml_tag(content: &[u8], name: &[u8], closing: bool) -> (place: Option<usize>)
    requires
        name@.len() > 0,
    ensures
        match place {
            Some(place) => tag_from(content@, name@, closing, 0) == Some(place as int) && place
                < content@.len(),
            None => tag_from(content@, name@, closing, 0) is None,
        },
{
    let mut from: usize = 0;
    loop
        invariant
            from <= content@.len(),
            name@.len() > 0,
            tag_from(content@, name@, closing, 0) == tag_from(
                content@,
                name@,
                closing,
                from as int,
            ),
        decreases content@.len() - from,
    {
        proof {
            lemma_find_from(content@, name@, from as int);
        }
        match find_subslice_from(content, name, from) {
            None => {
                return None;
            },
            Some(at) => {
                if name.len() < content.len() - at {
                    let after: u8 = content[at + name.len()];
                    if after == 0x20 || after == 0x09 || after == 0x0d || after == 0x0a || after
                        == 0x3e || after == 0x2f {
                        let start: usize = if at > 0 && content[at - 1] == 0x3a {
                            find_prefix_start(content, at - 1)
                        } else {
                            at
                        };
                        if closing {
                            if start >= 2 && content[start - 2] == 0x3c && content[start - 1]
                                == 0x2f {
                                return Some(start - 2);
                            }
                        } else if start >= 1 && content[start - 1] == 0x3c {
                            return Some(start - 1);
                        }
                    }
                }
                from = at + 1;
            },
        }
    }
}

/// The range of the first element with this local name: from its opening tag to
/// the end of the next closing tag.
pub open spec fn element_region(content: Seq<u8>, name: Seq<char>) -> Option<(int, int)> {
    match tag_from(content, utf8(name), false, 0) {
        Some(open) => match tag_from(content.skip(open), utf8(name), true, 0) {
            Some(close) => match find(content.skip(open + close), utf8(">"@)) {
                Some(end) => Some((open, open + close + end + 1)),
                None => None,
            },
            None => None,
        },
        None => None,
    }
}

fn xml_element_region(content: &[u8], name: &str) -> (region: Option<(usize, usize)>)
    requires
        utf8(name@).len() > 0,
    ensures
        match region {
            Some((start, end)) => element_region(content@, name@) == Some(
                (start as int, end as int),
            ) && start < end <= content@.len(),
            None => element_region(content@, name@) is None,
        },
{
    let open: usize = match find_xml_tag(content, name.as_bytes(), false) {
        Some(open) => open,
        None => {
            return None;
        },
    };
    let rest = &content[open..content.len()];
    assert(rest@ =~= content@.skip(open as int));
    let close: usize = match find_xml_tag(rest, name.as_bytes(), true) {
        Some(close) => close,
        None => {
            return None;
        },
    };
    let tail = &content[open + close..content.len()];
    assert(tail@ =~= content@.skip(open + close));
    proof {
        lemma_markers();
        lemma_find_from(tail@, utf8(">"@), 0);
    }
    match find_subslice(tail, ">".as_bytes()) {
        Some(end) => Some((open, open + close + end + 1)),
        None => None,
    }
}

/// The range of the first packet between its processing-instruction markers.
pub open spec fn packet_region(content: Seq<u8>) -> Option<(int, int)> {
    match find(content, utf8("<?xpacket begin"@)) {
        Some(begin) => match find(content.skip(begin), utf8("<?xpacket end"@)) {
            Some(end) => match find(content.skip(begin + end), utf8("?>"@)) {
                Some(close) => Some((begin, begin + end + close + 2)),
                None => None,
            },
            None => None,
        },
        None => None,
    }
}

fn find_packet(content: &[u8]) -> (region: Option<(usize, usize)>)
    ensures
        match region {
            Some((start, end)) => packet_region(content@) == Some((start as int, end as int))
                && start < end <= content@.len(),
            None => packet_region(content@) is None,
        },
{
    proof {
        lemma_markers();
        lemma_find_from(content@, utf8("<?xpacket begin"@), 0);
    }
    let begin: usize = match find_subslice(content, "<?xpacket begin".as_bytes()) {
        Some(begin) => begin,
        None => {
            return None;
        },
    };
    let rest = &content[begin..content.len()];
    assert(rest@ =~= content@.skip(begin as int));
    proof {
        lemma_find_from(rest@, utf8("<?xpacket end"@), 0);
    }
    let end: usize = match find_subslice(rest, "<?xpacket end".as_bytes()) {
        Some(end) => end,
        None => {
            return None;
        },
    };
    let tail = &content[begin + end..content.len()];
    assert(tail@ =~= content@.skip(begin + end));
    proof {
        lemma_find_from(tail@, utf8("?>"@), 0);
    }
    match find_subslice(tail, "?>".as_bytes()) {
        Some(close) => Some((begin, begin + end + close + 2)),
        None => None,
    }
}

proof fn lemma_markers()
    ensures
        utf8("<?xpacket begin"@).len() == 15,
        utf8("<?xpacket end"@).len() == 13,
        utf8("?>"@).len() == 2,
        utf8(">"@).len() == 1,
        utf8("xmpmeta"@).len() == 7,
        utf8("RDF"@).len() == 3,
{
    reveal_strlit("<?xpacket begin");
    reveal_strlit("<?xpacket end");
    reveal_strlit("?>");
    reveal_strlit(">");
    reveal_strlit("xmpmeta");
    reveal_strlit("RDF");
    crate::bytes::lemma_ascii("<?xpacket begin");
    crate::bytes::lemma_ascii("<?xpacket end");
    crate::bytes::lemma_ascii("?>");
    crate::bytes::lemma_ascii(">");
    crate::bytes::lemma_ascii("xmpmeta");
    crate::bytes::lemma_ascii("RDF");
}

/// The next XMP region, as a half-open byte range.
///
/// The `<?xpacket …?>` wrapper is tried first because it is the widest region
/// when present. It is optional, so a bare `x:xmpmeta` or `rdf:RDF` element is
/// matched too.
pub open spec fn region_of(content: Seq<u8>) -> Option<(int, int)> {
    match packet_region(content) {
        Some(region) => Some(region),
        None => match element_region(content, "xmpmeta"@) {
            Some(region) => Some(region),
            None => element_region(content, "RDF"@),
        },
    }
}

/// The next XMP region in `content`, as a half-open byte range.
pub fn xmp_region(content: &[u8]) -> (region: Option<(usize, usize)>)
    ensures
        match region {
            Some((start, end)) => region_of(content@) == Some((start as int, end as int)) && start
                < end <= content@.len(),
            None => region_of(content@) is None,
        },
{
    proof {
        lemma_markers();
    }
    match find_packet(content) {
        Some(region) => Some(region),
        None => match xml_element_region(content, "xmpmeta") {
            Some(region) => Some(region),
            None => xml_element_region(content, "RDF"),
        },
    }
}

/// Whether a byte range carries XMP: a complete, excisable region is present.
/// The same predicate decides detection, removal and verification, so the three
/// can never disagree.
pub open spec fn has_xmp(content: Seq<u8>) -> bool {
    region_of(content) is Some
}

/// Whether a byte range carries XMP.
pub fn contains_xmp(content: &[u8]) -> (found: bool)
    ensures
        found == has_xmp(content@),
{
    xmp_region(content).is_some()
}

/// The content after at most `count` regions were cut out, one after the other.
pub open spec fn without_regions(content: Seq<u8>, count: nat) -> Seq<u8>
    decreases count,
{
    if count == 0 {
        content
    } else {
        match region_of(content) {
            Some((start, end)) => without_regions(
                content.take(start) + content.skip(end),
                (count - 1) as nat,
            ),
            None => content,
        }
    }
}

/// How many regions are cut out, one after the other, before none is left.
pub open spec fn region_count(content: Seq<u8>) -> nat
    decreases content.len(),
{
    match region_of(content) {
        Some((start, end)) => {
            proof {
                lemma_region_bounds(content);
            }
            region_count(content.take(start) + content.skip(end)) + 1
        },
        None => 0,
    }
}

/// The content without its XMP regions, or `None` when it holds none.
pub open spec fn stripped_xmp(content: Seq<u8>) -> Option<Seq<u8>> {
    if has_xmp(content) {
        Some(without_regions(content, MAX_XMP_REGIONS as nat))
    } else {
        None
    }
}

/// Remove every XMP region from stream content, leaving surrounding bytes intact.
/// `None` when the content held no complete region. Removing only the first one
/// would leave a second packet in the same stream fully readable.
pub fn strip_xmp_regions(content: &[u8]) -> (stripped: Option<Vec<u8>>)
    ensures
        match stripped {
            Some(stripped) => stripped_xmp(content@) == Some(stripped@),
            None => stripped_xmp(content@) is None,
        },
        match stripped {
            Some(stripped) => has_xmp(stripped@) == (region_count(content@) > MAX_XMP_REGIONS),
            None => !has_xmp(content@),
        },
{
    proof {
        cutting_leaves_no_xmp(content@, MAX_XMP_REGIONS as nat);
    }
    if !contains_xmp(content) {
        return None;
    }
    let mut buffer = copy_bytes(content);
    let mut left: usize = MAX_XMP_REGIONS;
    while left > 0
        invariant
            left <= MAX_XMP_REGIONS,
            without_regions(content@, MAX_XMP_REGIONS as nat) == without_regions(
                buffer@,
                left as nat,
            ),
            has_xmp(content@),
            has_xmp(without_regions(content@, MAX_XMP_REGIONS as nat)) == (region_count(content@)
                > MAX_XMP_REGIONS),
        decreases left,
    {
        match xmp_region(&buffer) {
            Some((start, end)) => {
                let mut rest: Vec<u8> = Vec::new();
                push_range(&mut rest, &buffer, 0, start);
                push_range(&mut rest, &buffer, end, buffer.len());
                assert(rest@ =~= buffer@.take(start as int) + buffer@.skip(end as int));
                buffer = rest;
            },
            None => {
                return Some(buffer);
            },
        }
        left -= 1;
    }
    Some(buffer)
}

/// A region lies in the content and is not empty.
pub proof fn lemma_region_bounds(content: Seq<u8>)
    ensures
        region_of(content) matches Some((start, end)) ==> 0 <= start < end <= content.len(),
{
    lemma_markers();
    if let Some((start, end)) = packet_region(content) {
        lemma_find_from(content, utf8("<?xpacket begin"@), 0);
        let begin = find(content, utf8("<?xpacket begin"@))->0;
        lemma_find_from(content.skip(begin), utf8("<?xpacket end"@), 0);
        let stop = find(content.skip(begin), utf8("<?xpacket end"@))->0;
        lemma_find_from(content.skip(begin + stop), utf8("?>"@), 0);
    } else if let Some((start, end)) = element_region(content, "xmpmeta"@) {
        lemma_element_bounds(content, "xmpmeta"@);
    } else {
        lemma_element_bounds(content, "RDF"@);
    }
}

proof fn lemma_element_bounds(content: Seq<u8>, name: Seq<char>)
    requires
        utf8(name).len() > 0,
    ensures
        element_region(content, name) matches Some((start, end)) ==> 0 <= start < end
            <= content.len(),
{
    lemma_markers();
    lemma_tag_bounds(content, utf8(name), false, 0);
    if let Some(open) = tag_from(content, utf8(name), false, 0) {
        lemma_tag_bounds(content.skip(open), utf8(name), true, 0);
        if let Some(close) = tag_from(content.skip(open), utf8(name), true, 0) {
            lemma_find_from(content.skip(open + close), utf8(">"@), 0);
        }
    }
}

pub(crate) proof fn lemma_tag_bounds(content: Seq<u8>, name: Seq<u8>, closing: bool, from: int)
    requires
        0 <= from,
        name.len() > 0,
    ensures
        tag_from(content, name, closing, from) matches Some(open) ==> 0 <= open < content.len(),
    decreases content.len() - from,
{
    lemma_find_from(content, name, from);
    if let Some(at) = find_from(content, name, from) {
        lemma_prefix_bounds(content, if at > 0 { at - 1 } else { 0 });
        if tag_at(content, name.len() as int, closing, at) is None {
            lemma_tag_bounds(content, name, closing, at + 1);
        }
    }
}

proof fn lemma_prefix_bounds(content: Seq<u8>, end: int)
    requires
        0 <= end,
    ensures
        0 <= prefix_start(content, end) <= end,
    decreases end,
{
    if end > 0 && is_prefix_byte(content[end - 1]) {
        lemma_prefix_bounds(content, end - 1);
    }
}

/// Cutting out regions leaves none behind exactly when there were no more of them than
/// the guard allows.
pub proof fn cutting_leaves_no_xmp(content: Seq<u8>, count: nat)
    ensures
        has_xmp(without_regions(content, count)) == (region_count(content) > count),
    decreases count,
{
    if count > 0 {
        if let Some((start, end)) = region_of(content) {
            cutting_leaves_no_xmp(content.take(start) + content.skip(end), (count - 1) as nat);
        }
    }
}

} // verus!
