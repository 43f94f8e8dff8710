use vstd::prelude::*;
use crate::grammar::{
    block_outcome, parse_block, BlockFields, BlockView, OutcomeView, ParseError, RecordOutcome,
};
use crate::location::{views, Location, LocationView};

verus! {

/// The container of the booking list and, inside it, the class pair of one row.
pub const BLOCK_SELECTOR: &'static str = ".mottagningbookabletimeslistblock .block__row.media";

/// Inside a block: the heading that carries `<region>: <organization>`.
pub const HEADING_SELECTOR: &'static str = "h3";

/// Inside a block: the link to the booking page.
pub const LINK_SELECTOR: &'static str = "a";

/// Inside a block: the annotation that starts with `(<count>`.
pub const ANNOTATION_SELECTOR: &'static str = "span";

/// The attribute of the link that holds its target.
pub const LINK_ATTRIBUTE: &'static str = "href";

/// What a page yields under a markup contract: for each element that the
/// block selector matches, in document order, the text of its first heading,
/// the attribute of its first link and the text of its first annotation;
/// `None` where a selector is not valid CSS.
pub uninterp spec fn page_blocks(
    html: Seq<char>,
    block: Seq<char>,
    heading: Seq<char>,
    link: Seq<char>,
    annotation: Seq<char>,
    attribute: Seq<char>,
) -> Option<Seq<BlockView>>;

/// Relies on scraper: `Selector::parse` for the four selectors,
/// `Html::parse_document` (which builds a tree from any text), `Html::select`
/// and `ElementRef::select` for the matches in document order, and
/// `ElementRef::text` and `ElementRef::attr` for their contents.
#[verifier::external_body]
fn read_page(
    html: &str,
    block: &str,
    heading: &str,
    link: &str,
    annotation: &str,
    attribute: &str,
) -> (r: Option<Vec<BlockFields>>)
    ensures
        match r {
            Some(v) => page_blocks(html@, block@, heading@, link@, annotation@, attribute@) == Some(
                block_views(v@),
            ),
            None => page_blocks(html@, block@, heading@, link@, annotation@, attribute@) is None,
        },
{
    let parse = |s: &str| scraper::Selector::parse(s).ok();
    let (b, h, l, a) = (parse(block)?, parse(heading)?, parse(link)?, parse(annotation)?);
    let document = scraper::Html::parse_document(html);
    let text = |e: scraper::ElementRef| e.text().collect::<String>();
    Some(document.select(&b).map(|e| BlockFields {
        heading: e.select(&h).next().map(text),
        link: e.select(&l).next().and_then(|x| x.attr(attribute)).map(str::to_owned),
        annotation: e.select(&a).next().map(text),
    }).collect())
}

/// The records that a sequence of blocks yields, in order, or the error of the
/// first block that is malformed.
pub open spec fn collect_records(blocks: Seq<BlockView>) -> Result<Seq<LocationView>, ParseError>
    decreases blocks.len(),
{
    if blocks.len() == 0 {
        Ok(Seq::empty())
    } else {
        match collect_records(blocks.drop_last()) {
            Err(e) => Err(e),
            Ok(v) => match block_outcome(blocks.last()) {
                OutcomeView::Parsed(l) => Ok(v.push(l)),
                OutcomeView::Skipped => Ok(v),
                OutcomeView::Malformed(e) => Err(e),
            },
        }
    }
}

pub open spec fn block_views(blocks: Seq<BlockFields>) -> Seq<BlockView> {
    blocks.map_values(|b: BlockFields| b@)
}

proof fn lemma_collect_error_stays(blocks: Seq<BlockView>, k: int, e: ParseError)
    requires
        0 <= k <= blocks.len(),
        collect_records(blocks.subrange(0, k)) == Err::<Seq<LocationView>, ParseError>(e),
    ensures
        collect_records(blocks) == Err::<Seq<LocationView>, ParseError>(e),
    decreases blocks.len() - k,
{
    if k < blocks.len() {
        assert(blocks.subrange(0, k + 1).drop_last() =~= blocks.subrange(0, k));
        lemma_collect_error_stays(blocks, k + 1, e);
    } else {
        assert(blocks.subrange(0, k) =~= blocks);
    }
}

/// Runs the record parser over each block in order and keeps the records;
/// blocks that do not match are left out, and a malformed one fails the whole.
pub fn records_from_blocks(blocks: &Vec<BlockFields>) -> (r: Result<Vec<Location>, ParseError>)
    ensures
        match r {
            Ok(v) => collect_records(block_views(blocks@)) == Ok::<Seq<LocationView>, ParseError>(views(v@)),
            Err(e) => collect_records(block_views(blocks@)) == Err::<Seq<LocationView>, ParseError>(e),
        },
{
    let ghost bs = block_views(blocks@);
    let mut out: Vec<Location> = Vec::new();
    let mut i: usize = 0;
    assert(bs.subrange(0, 0) =~= Seq::<BlockView>::empty());
    assert(views(out@) =~= Seq::<LocationView>::empty());
    while i < blocks.len()
        invariant
            i <= blocks.len(),
            bs == block_views(blocks@),
            collect_records(bs.subrange(0, i as int)) == Ok::<Seq<LocationView>, ParseError>(views(out@)),
        decreases blocks.len() - i,
    {
        assert(bs.subrange(0, i + 1).drop_last() =~= bs.subrange(0, i as int));
        assert(bs.subrange(0, i + 1).last() == blocks@[i as int]@);
        let ghost before = out@;
        match parse_block(&blocks[i]) {
            RecordOutcome::Parsed(l) => {
                out.push(l);
                assert(views(out@) =~= views(before).push(out@.last()@));
            },
            RecordOutcome::Skipped => {},
            RecordOutcome::Malformed(e) => {
                proof {
                    lemma_collect_error_stays(bs, i + 1, e);
                }
                return Err(e);
            },
        }
        i += 1;
    }
    assert(bs.subrange(0, i as int) =~= bs);
    Ok(out)
}

/// Why a page yields no records.
#[derive(Debug, Clone, Copy, PartialEq, Eq, Structural)]
pub enum ExtractError {
    /// One of the selectors of the markup contract is not valid CSS.
    Selector,
    /// A booking block is malformed.
    Record(ParseError),
}

/// The records of a whole page, in document order, as [`records_from_blocks`]
/// gives them for the blocks that the markup contract selects.
pub fn extract_locations(html: &str) -> (r: Result<Vec<Location>, ExtractError>)
    ensures
        match page_blocks(
            html@,
            BLOCK_SELECTOR@,
            HEADING_SELECTOR@,
            LINK_SELECTOR@,
            ANNOTATION_SELECTOR@,
            LINK_ATTRIBUTE@,
        ) {
            None => r == Err::<Vec<Location>, ExtractError>(ExtractError::Selector),
            Some(bs) => match collect_records(bs) {
                Ok(v) => r is Ok && views(r->Ok_0@) == v,
                Err(e) => r == Err::<Vec<Location>, ExtractError>(ExtractError::Record(e)),
            },
        },
{
    match read_page(
        html,
        BLOCK_SELECTOR,
        HEADING_SELECTOR,
        LINK_SELECTOR,
        ANNOTATION_SELECTOR,
        LINK_ATTRIBUTE,
    ) {
        None => Err(ExtractError::Selector),
        Some(blocks) => match records_from_blocks(&blocks) {
            Ok(v) => Ok(v),
            Err(e) => Err(ExtractError::Record(e)),
        },
    }
}

} // verus!
