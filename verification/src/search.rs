//! Where an item shows in a frame.
use crate::items::LoadedItems;
use crate::peaks::{
    find_multiple_extremes, lemma_peaks_in_columns_and_rows, peak_list, ExtremeLocation,
};
use crate::raster::{shown, Grid, Image};
use crate::score::Score;
use vstd::prelude::*;

verus! {

/// The bits of 25, the score above which a position is no match.
pub const MATCH_THRESHOLD_BITS: u32 = 0x41c8_0000;

/// How many columns or rows two matches are apart at least, less one.
pub const MATCH_DISTANCE: usize = 20;

/// Why no matches can be named.
#[derive(Clone, Copy, Debug, PartialEq, Eq, Structural)]
pub enum SearchError {
    /// The matcher returned nothing.
    NoMatchResult,
    /// The matcher returned scores that are not numbers.
    UnorderedScores,
}

/// The matches are the peaks of what the matcher returned.
pub open spec fn matches_of(
    result: Option<Grid>,
    found: Result<Vec<ExtremeLocation>, SearchError>,
) -> bool {
    match (result, found) {
        (None, Err(SearchError::NoMatchResult)) => true,
        (Some(map), Err(SearchError::UnorderedScores)) => !map.ordered(),
        (Some(map), Ok(peaks)) => map.ordered() && peak_list(
            map,
            Score::from_bits(MATCH_THRESHOLD_BITS),
            MATCH_DISTANCE as nat,
            peaks@,
        ),
        _ => false,
    }
}

/// The matches in what the matcher returned, best first.
pub fn locate_matches(result: Option<Image>) -> (found: Result<Vec<ExtremeLocation>, SearchError>)
    ensures
        matches_of(shown(result), found),
{
    match result {
        Some(map) => {
            if map.is_ordered() {
                Ok(
                    find_multiple_extremes(
                        &map,
                        Score::from_bits(MATCH_THRESHOLD_BITS),
                        Score::infinity(),
                        MATCH_DISTANCE,
                    ),
                )
            } else {
                Err(SearchError::UnorderedScores)
            }
        },
        None => Err(SearchError::NoMatchResult),
    }
}

/// Looks for an item in a frame. There is no answer for an item without a picture.
///
/// The grey frame and the picture of the item go to the matcher, and the matches are the peaks of
/// what it returns.
pub fn find_item<M: Fn(&Image, &Image) -> Option<Image>>(
    items: &LoadedItems,
    name: &str,
    frame: &Image,
    matcher: M,
) -> (found: Option<Result<Vec<ExtremeLocation>, SearchError>>)
    requires
        items.images@.contains_key(name@) ==> call_requires(
            matcher,
            (frame, &items.images@[name@]),
        ),
    ensures
        found is Some <==> items.images@.contains_key(name@),
        found matches Some(matches) ==> exists|result: Option<Image>|
            {
                &&& #[trigger] call_ensures(matcher, (frame, &items.images@[name@]), result)
                &&& matches_of(shown(result), matches)
            },
{
    match items.images.get(name) {
        Some(picture) => {
            let result = matcher(frame, picture);
            Some(locate_matches(result))
        },
        None => None,
    }
}

/// What is listed for what the matcher returned, whatever the size of the map.
///
/// Without a map there is no list, and neither where one of two or more cells is not a number.
/// Else each match lies in the map, has the score of the cell there, and that score is at most 25.
/// Every cell of at most 25 is within 20 columns and 20 rows of a match, and any two matches have
/// columns or rows more than 20 apart. The best matches come first. And a cell that is better than
/// a match, or as good and before it, is within 20 columns and 20 rows of an earlier match.
pub proof fn lemma_matches_are_distinct_and_complete(
    result: Option<Image>,
    found: Result<Vec<ExtremeLocation>, SearchError>,
)
    requires
        result matches Some(map) ==> map@.cells.len() == map@.width * map@.height,
        call_ensures(locate_matches, (result,), found),
    ensures
        result is None <==> found == Err::<Vec<ExtremeLocation>, SearchError>(
            SearchError::NoMatchResult,
        ),
        found is Ok <==> (result matches Some(map) && (map@.cells.len() < 2 || forall|i: int|
            0 <= i < map@.cells.len() ==> !(#[trigger] map@.cells[i]).nan())),
        result matches Some(map) ==> found matches Ok(matches) ==> {
            &&& forall|k: int|
                0 <= k < matches@.len() ==> {
                    let (x, y) = (#[trigger] matches@[k]).location;
                    let at = y * map@.width + x;
                    &&& x < map@.width
                    &&& y < map@.height
                    &&& 0 <= at < map@.cells.len()
                    &&& matches@[k].value == map@.cells[at]
                    &&& !(Score { bits: 0x41c8_0000 }).lt(matches@[k].value)
                }
            &&& forall|i: int|
                0 <= i < map@.cells.len() && !(Score { bits: 0x41c8_0000 }).lt(#[trigger] map@.cells[i])
                    ==> exists|k: int|
                    {
                        &&& 0 <= k < matches@.len()
                        &&& -20 <= (#[trigger] matches@[k]).location.0 - i % (map@.width as int) <= 20
                        &&& -20 <= matches@[k].location.1 - i / (map@.width as int) <= 20
                    }
            &&& forall|a: int, b: int|
                0 <= a < b < matches@.len() ==> {
                    ||| (#[trigger] matches@[a]).location.0 - (#[trigger] matches@[b]).location.0 > 20
                    ||| matches@[b].location.0 - matches@[a].location.0 > 20
                    ||| matches@[a].location.1 - matches@[b].location.1 > 20
                    ||| matches@[b].location.1 - matches@[a].location.1 > 20
                }
            &&& forall|a: int, b: int|
                0 <= a < b < matches@.len() ==> !(#[trigger] matches@[b]).value.lt((#[trigger] matches@[a]).value)
            &&& forall|k: int, i: int|
                {
                    &&& 0 <= k < matches@.len()
                    &&& 0 <= i < map@.cells.len()
                    &&& (#[trigger] map@.cells[i]).lt((#[trigger] matches@[k]).value) || (i < matches@[k].location.1
                        * map@.width + matches@[k].location.0 && !matches@[k].value.lt(map@.cells[i]))
                } ==> exists|m: int|
                    {
                        &&& 0 <= m < k
                        &&& -20 <= (#[trigger] matches@[m]).location.0 - i % (map@.width as int) <= 20
                        &&& -20 <= matches@[m].location.1 - i / (map@.width as int) <= 20
                    }
        },
{
    if let (Some(map), Ok(matches)) = (result, found) {
        lemma_peaks_in_columns_and_rows(map@, Score { bits: 0x41c8_0000 }, 20, matches@);
    }
}

/// Where an item shows, whatever the size of the map that the matcher returns.
///
/// There is an answer exactly for an item with a picture. The matcher is asked with the frame and
/// that picture, and the matches are told from what it returned: without a map there is no list,
/// and neither where one of two or more cells is not a number. Else the matches lie in the map,
/// have the scores of their cells, at most 25, and come best first; every cell of at most 25 is
/// within 20 columns and 20 rows of a match; any two matches have columns or rows more than 20
/// apart; and a cell that is better than a match, or as good and before it, is within 20 columns
/// and 20 rows of an earlier match.
pub proof fn lemma_item_is_found_where_it_matches<M: Fn(&Image, &Image) -> Option<Image>>(
    items: LoadedItems,
    name: &str,
    frame: Image,
    matcher: M,
    found: Option<Result<Vec<ExtremeLocation>, SearchError>>,
)
    requires
        forall|result: Option<Image>| #[trigger]
            call_ensures(matcher, (&frame, &items.images@[name@]), result) ==> (
            result matches Some(map) ==> map@.cells.len() == map@.width * map@.height),
        call_ensures(find_item::<M>, (&items, name, &frame, matcher), found),
    ensures
        found is Some <==> items.images@.contains_key(name@),
        found matches Some(list) ==> exists|result: Option<Image>|
            {
                &&& #[trigger] call_ensures(matcher, (&frame, &items.images@[name@]), result)
                &&& result is None <==> list == Err::<Vec<ExtremeLocation>, SearchError>(
                    SearchError::NoMatchResult,
                )
                &&& list is Ok <==> (result matches Some(map) && (map@.cells.len() < 2
                    || forall|i: int|
                    0 <= i < map@.cells.len() ==> !(#[trigger] map@.cells[i]).nan()))
                &&& result matches Some(map) ==> list matches Ok(matches) ==> {
                    &&& forall|k: int|
                        0 <= k < matches@.len() ==> {
                            let (x, y) = (#[trigger] matches@[k]).location;
                            let at = y * map@.width + x;
                            &&& x < map@.width
                            &&& y < map@.height
                            &&& 0 <= at < map@.cells.len()
                            &&& matches@[k].value == map@.cells[at]
                            &&& !(Score { bits: 0x41c8_0000 }).lt(matches@[k].value)
                        }
                    &&& forall|i: int|
                        0 <= i < map@.cells.len() && !(Score { bits: 0x41c8_0000 }).lt(#[trigger] map@.cells[i])
                            ==> exists|k: int|
                            {
                                &&& 0 <= k < matches@.len()
                                &&& -20 <= (#[trigger] matches@[k]).location.0 - i % (map@.width as int) <= 20
                                &&& -20 <= matches@[k].location.1 - i / (map@.width as int) <= 20
                            }
                    &&& forall|a: int, b: int|
                        0 <= a < b < matches@.len() ==> {
                            ||| (#[trigger] matches@[a]).location.0 - (#[trigger] matches@[b]).location.0 > 20
                            ||| matches@[b].location.0 - matches@[a].location.0 > 20
                            ||| matches@[a].location.1 - matches@[b].location.1 > 20
                            ||| matches@[b].location.1 - matches@[a].location.1 > 20
                        }
                    &&& forall|a: int, b: int|
                        0 <= a < b < matches@.len() ==> !(#[trigger] matches@[b]).value.lt((#[trigger] matches@[a]).value)
                    &&& forall|k: int, i: int|
                        {
                            &&& 0 <= k < matches@.len()
                            &&& 0 <= i < map@.cells.len()
                            &&& (#[trigger] map@.cells[i]).lt((#[trigger] matches@[k]).value) || (i < matches@[k].location.1
                                * map@.width + matches@[k].location.0 && !matches@[k].value.lt(map@.cells[i]))
                        } ==> exists|m: int|
                            {
                                &&& 0 <= m < k
                                &&& -20 <= (#[trigger] matches@[m]).location.0 - i % (map@.width as int) <= 20
                                &&& -20 <= matches@[m].location.1 - i / (map@.width as int) <= 20
                            }
                }
            },
{
    if let Some(list) = found {
        let result = choose|result: Option<Image>|
            {
                &&& #[trigger] call_ensures(matcher, (&frame, &items.images@[name@]), result)
                &&& matches_of(shown(result), list)
            };
        if let (Some(map), Ok(matches)) = (result, list) {
            lemma_peaks_in_columns_and_rows(map@, Score { bits: 0x41c8_0000 }, 20, matches@);
        }
    }
}

} // verus!
