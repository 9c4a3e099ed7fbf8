//! The catalogue of item pictures: a list of names, and one picture file for each name.
use crate::chunks::sound_palette;
use crate::codec::{decode_png, decoded_png, picture_grid, DecodeError};
use crate::raster::{Grid, Image};
use vstd::hash_map::StringHashMap;
use vstd::prelude::*;
use vstd::string::*;

verus! {

/// Where the first line break stands; the length of the text if there is none.
pub open spec fn line_end(text: Seq<char>) -> int
    decreases text.len(),
{
    if text.len() == 0 || text[0] == '\n' {
        0
    } else {
        1 + line_end(text.drop_first())
    }
}

/// A line that a line break ended, without the carriage return before the break.
pub open spec fn without_return(line: Seq<char>) -> Seq<char> {
    if line.len() > 0 && line.last() == '\r' {
        line.drop_last()
    } else {
        line
    }
}

/// The lines of a text. A line ends at a line break, with or without a carriage return before it,
/// or at the end of the text; the break after the last line is optional.
pub open spec fn lines(text: Seq<char>) -> Seq<Seq<char>>
    decreases text.len(),
{
    let end = line_end(text);
    if text.len() == 0 {
        Seq::empty()
    } else if end == text.len() {
        seq![text]
    } else {
        proof {
            lemma_line_end(text);
        }
        seq![without_return(text.take(end))] + lines(text.skip(end + 1))
    }
}

/// The end of the first line is where the first line break stands.
pub proof fn lemma_line_end(text: Seq<char>)
    ensures
        0 <= line_end(text) <= text.len(),
        forall|i: int| 0 <= i < line_end(text) ==> text[i] != '\n',
        line_end(text) < text.len() ==> text[line_end(text)] == '\n',
    decreases text.len(),
{
    if text.len() > 0 && text[0] != '\n' {
        let rest = text.drop_first();
        lemma_line_end(rest);
        assert forall|i: int| 0 <= i < line_end(text) implies text[i] != '\n' by {
            if i > 0 {
                assert(rest[i - 1] == text[i]);
            }
        }
        if line_end(text) < text.len() {
            assert(rest[line_end(rest)] == text[line_end(text)]);
        }
    }
}

/// Nothing else is the end of the first line.
proof fn lemma_line_end_is(text: Seq<char>, end: int)
    requires
        0 <= end <= text.len(),
        forall|i: int| 0 <= i < end ==> text[i] != '\n',
        end < text.len() ==> text[end] == '\n',
    ensures
        line_end(text) == end,
{
    lemma_line_end(text);
    if end < line_end(text) {
        assert(text[end] != '\n');
    }
}

/// The characters of a text.
fn characters(text: &str) -> (characters: Vec<char>)
    ensures
        characters@ == text@,
{
    let mut characters: Vec<char> = Vec::new();
    for c in it: text.chars()
        invariant
            it.seq() == text@,
            characters@ == text@.take(it.index() as int),
    {
        characters.push(c);
    }
    assert(characters@ =~= text@);
    characters
}

/// The names in an item list, one on each line.
pub fn item_names(list: &str) -> (names: Vec<String>)
    ensures
        names@.len() == lines(list@).len(),
        forall|i: int| 0 <= i < names@.len() ==> (#[trigger] names@[i])@ == lines(list@)[i],
{
    let text = characters(list);
    let ghost all = list@;
    let mut names: Vec<String> = Vec::new();
    let mut start: usize = 0;
    let mut i: usize = 0;
    proof {
        assert(all.skip(0) =~= all);
    }
    while i < text.len()
        invariant
            text@ == all,
            all == list@,
            start <= i <= text@.len(),
            forall|j: int| start <= j < i ==> all[j] != '\n',
            lines(all) == names@.map_values(|n: String| n@) + lines(all.skip(start as int)),
        decreases text@.len() - i,
    {
        if text[i] == '\n' {
            let end: usize = if start < i && text[i - 1] == '\r' {
                i - 1
            } else {
                i
            };
            let name = list.substring_char(start, end).to_owned();
            proof {
                let rest = all.skip(start as int);
                let length = i - start;
                lemma_line_end_is(rest, length);
                assert(without_return(rest.take(length)) =~= all.subrange(
                    start as int,
                    end as int,
                ));
                assert(rest.skip(length + 1) =~= all.skip(i + 1));
                assert(lines(rest) == seq![name@] + lines(all.skip(i + 1)));
                assert(names@.push(name).map_values(|n: String| n@) =~= names@.map_values(
                    |n: String| n@,
                ).push(name@));
                assert(lines(all) =~= names@.push(name).map_values(|n: String| n@) + lines(
                    all.skip(i + 1),
                ));
            }
            names.push(name);
            start = i + 1;
        }
        i = i + 1;
    }
    if start < text.len() {
        let name = list.substring_char(start, text.len()).to_owned();
        proof {
            let rest = all.skip(start as int);
            lemma_line_end_is(rest, rest.len() as int);
            assert(rest =~= all.subrange(start as int, all.len() as int));
            assert(names@.push(name).map_values(|n: String| n@) =~= names@.map_values(
                |n: String| n@,
            ).push(name@));
            assert(lines(all) =~= names@.push(name).map_values(|n: String| n@));
        }
        names.push(name);
    } else {
        proof {
            assert(lines(all.skip(start as int)) =~= Seq::<Seq<char>>::empty());
            assert(lines(all) =~= names@.map_values(|n: String| n@));
        }
    }
    proof {
        assert forall|k: int| 0 <= k < names@.len() implies (#[trigger] names@[k])@ == lines(
            list@,
        )[k] by {
            assert(names@.map_values(|n: String| n@)[k] == names@[k]@);
        }
    }
    names
}

/// The file that holds the picture of an item.
pub open spec fn picture_path(name: Seq<char>) -> Seq<char> {
    "captcha-screenshots/items/"@ + name + ".png"@
}

/// The file that holds the picture of an item.
pub fn item_image_path(name: &str) -> (path: String)
    ensures
        path@ == picture_path(name@),
{
    let mut path = "captcha-screenshots/items/".to_owned();
    path.append(name);
    path.append(".png");
    path
}

/// What holds of the answer whether the file name of an item tells the format.
///
/// The file of a name that is empty or ends in a slash is called `.png`: it has no extension, and
/// the format is unknown. Whether a backslash separates names, too, is up to the platform, so that
/// nothing is said of a name that ends in one. The file of any other name has the extension `png`.
pub open spec fn format_fits(name: Seq<char>, known: bool) -> bool {
    if name.len() == 0 || name.last() == '/' {
        !known
    } else {
        name.last() == '\\' || known
    }
}

/// `image::ImageFormat::from_path`: whether the extension of the file of an item says that it is a
/// PNG file.
#[verifier::external_body]
fn names_png(path: &str) -> (known: bool)
    requires
        exists|name: Seq<char>| path@ == #[trigger] picture_path(name),
    ensures
        forall|name: Seq<char>|
            path@ == #[trigger] picture_path(name) ==> format_fits(name, known),
{
    matches!(image::ImageFormat::from_path(path), Ok(image::ImageFormat::Png))
}

/// What is found where the picture of an item should be.
pub enum ItemFile {
    /// There is no such file.
    Missing,
    /// There is a file, and it cannot be opened.
    Unreadable,
    /// The file holds these bytes.
    Found(Vec<u8>),
}

/// What is found out about an item: whether the name of its file tells the format, and what is
/// there.
pub struct Finding {
    pub known: bool,
    pub file: ItemFile,
}

/// What keeps the bytes of a file from being a picture.
pub enum Fault {
    /// The file name does not tell the format.
    UnknownFormat,
    /// The pixels are places of a palette that is not a whole one.
    UnsoundPalette,
    /// The decoder refuses the bytes.
    Refused,
}

/// What keeps a file with these bytes from being a picture, if anything does.
pub open spec fn fault(known: bool, bytes: Seq<u8>) -> Option<Fault> {
    if !known {
        Some(Fault::UnknownFormat)
    } else if !sound_palette(bytes) {
        Some(Fault::UnsoundPalette)
    } else if decoded_png(bytes) is None {
        Some(Fault::Refused)
    } else {
        None
    }
}

/// What the picture of an item shows, if it can be made out.
pub open spec fn item_picture(finding: Finding) -> Option<Grid> {
    match finding.file {
        ItemFile::Found(bytes) if fault(finding.known, bytes@) is None => Some(
            picture_grid(decoded_png(bytes@).unwrap()),
        ),
        _ => None,
    }
}

/// The pictures that were made out. Of two pictures under one name the later one counts.
pub open spec fn catalogue(names: Seq<Seq<char>>, findings: Seq<Finding>) -> Map<Seq<char>, Grid>
    decreases findings.len(),
{
    if findings.len() == 0 {
        Map::empty()
    } else {
        let n = findings.len() - 1;
        let earlier = catalogue(names, findings.drop_last());
        match item_picture(findings[n]) {
            Some(grid) => earlier.insert(names[n], grid),
            None => earlier,
        }
    }
}

/// Why a file is not the picture of an item.
#[derive(Debug)]
pub enum ItemError {
    /// The file name does not tell the format.
    UnknownFormat,
    /// The bytes are not those of a picture.
    NoPicture(DecodeError),
}

impl View for ItemError {
    type V = Fault;

    open spec fn view(&self) -> Fault {
        match self {
            ItemError::UnknownFormat => Fault::UnknownFormat,
            ItemError::NoPicture(DecodeError::UnsoundPalette) => Fault::UnsoundPalette,
            ItemError::NoPicture(DecodeError::Refused(_)) => Fault::Refused,
        }
    }
}

/// An item without a picture.
#[derive(Debug)]
pub enum ItemWarning {
    /// There is no file.
    NotFound(String),
    /// The file is not a picture.
    NotDecoded(String, ItemError),
}

/// What a warning says: of which item, whether there is a file, and what keeps it from being a
/// picture.
pub enum Complaint {
    NotFound(Seq<char>),
    NotDecoded(Seq<char>, Fault),
}

impl View for ItemWarning {
    type V = Complaint;

    open spec fn view(&self) -> Complaint {
        match self {
            ItemWarning::NotFound(name) => Complaint::NotFound(name@),
            ItemWarning::NotDecoded(name, error) => Complaint::NotDecoded(name@, error@),
        }
    }
}

/// The complaint about an item, if it is passed over.
pub open spec fn complaint(name: Seq<char>, finding: Finding) -> Option<Complaint> {
    match finding.file {
        ItemFile::Missing => Some(Complaint::NotFound(name)),
        ItemFile::Unreadable => None,
        ItemFile::Found(bytes) => match fault(finding.known, bytes@) {
            Some(fault) => Some(Complaint::NotDecoded(name, fault)),
            None => None,
        },
    }
}

/// The complaints about the items that are passed over, in the order of the list.
pub open spec fn complaints(names: Seq<Seq<char>>, findings: Seq<Finding>) -> Seq<Complaint>
    decreases findings.len(),
{
    if findings.len() == 0 {
        Seq::empty()
    } else {
        let n = findings.len() - 1;
        let earlier = complaints(names, findings.drop_last());
        match complaint(names[n], findings[n]) {
            Some(c) => earlier.push(c),
            None => earlier,
        }
    }
}

/// The pictures of the items, by name, and the items that were passed over.
pub struct LoadedItems {
    pub images: StringHashMap<Image>,
    pub warnings: Vec<ItemWarning>,
}

impl LoadedItems {
    /// These are the items of the list, for what was found out about them.
    pub open spec fn loaded(self, names: Seq<Seq<char>>, findings: Seq<Finding>) -> bool {
        let pictures = catalogue(names, findings);
        &&& self.images@.dom() == pictures.dom()
        &&& forall|name: Seq<char>|
            pictures.dom().contains(name) ==> (#[trigger] self.images@[name])@ == pictures[name]
        &&& self.warnings@.map_values(|w: ItemWarning| w@) == complaints(names, findings)
    }
}

/// The picture of an item is there and cannot be opened.
#[derive(Debug)]
pub struct UnreadableItem {
    pub item: String,
    /// The items that were passed over before it.
    pub warnings: Vec<ItemWarning>,
}

/// The image of an item, from the bytes of its file.
pub fn decode_item(known: bool, bytes: &Vec<u8>) -> (image: Result<Image, ItemError>)
    ensures
        match image {
            Ok(i) => fault(known, bytes@) is None && (decoded_png(bytes@) matches Some(p) && i@
                == picture_grid(p)),
            Err(e) => fault(known, bytes@) == Some(e@),
        },
{
    if !known {
        return Err(ItemError::UnknownFormat);
    }
    match decode_png(bytes.as_slice()) {
        Ok(image) => Ok(image),
        Err(error) => Err(ItemError::NoPicture(error)),
    }
}

impl LoadedItems {
    /// Takes in what was found out about the next item of the list.
    fn take_in(
        &mut self,
        name: String,
        finding: Finding,
        Ghost(names): Ghost<Seq<Seq<char>>>,
        Ghost(findings): Ghost<Seq<Finding>>,
    ) -> (readable: bool)
        requires
            old(self).loaded(names, findings),
            findings.len() < names.len(),
            names[findings.len() as int] == name@,
        ensures
            readable <==> !(finding.file is Unreadable),
            final(self).loaded(names, findings.push(finding)),
    {
        let ghost more = findings.push(finding);
        let ghost before = self.warnings@;
        assert(more.drop_last() =~= findings);
        match finding.file {
            ItemFile::Missing => {
                let warning = ItemWarning::NotFound(name);
                self.warnings.push(warning);
                assert(self.warnings@.map_values(|w: ItemWarning| w@) =~= before.map_values(
                    |w: ItemWarning| w@,
                ).push(warning@));
                true
            },
            ItemFile::Unreadable => false,
            ItemFile::Found(bytes) => {
                match decode_item(finding.known, &bytes) {
                    Ok(image) => {
                        self.images.insert(name, image);
                        assert(self.images@.dom() =~= catalogue(names, more).dom());
                    },
                    Err(error) => {
                        let warning = ItemWarning::NotDecoded(name, error);
                        self.warnings.push(warning);
                        assert(self.warnings@.map_values(|w: ItemWarning| w@)
                            =~= before.map_values(|w: ItemWarning| w@).push(warning@));
                    },
                }
                true
            },
        }
    }
}

/// Asked for the file at `path`, the reader answered `file`.
pub open spec fn was_read<R: Fn(String) -> ItemFile>(
    reader: R,
    path: Seq<char>,
    file: ItemFile,
) -> bool {
    exists|p: String| p@ == path && #[trigger] call_ensures(reader, (p,), file)
}

/// What comes of what was found out about the items of the list, up to the first one whose file
/// cannot be opened.
pub open spec fn outcome(
    names: Seq<Seq<char>>,
    findings: Seq<Finding>,
    items: Result<LoadedItems, UnreadableItem>,
) -> bool {
    match items {
        Ok(loaded) => {
            &&& findings.len() == names.len()
            &&& forall|i: int|
                0 <= i < findings.len() ==> !((#[trigger] findings[i]).file is Unreadable)
            &&& loaded.loaded(names, findings)
        },
        Err(unreadable) => {
            &&& 0 < findings.len() <= names.len()
            &&& forall|i: int|
                0 <= i < findings.len() - 1 ==> !((#[trigger] findings[i]).file is Unreadable)
            &&& findings.last().file is Unreadable
            &&& unreadable.item@ == names[findings.len() - 1]
            &&& unreadable.warnings@.map_values(|w: ItemWarning| w@) == complaints(names, findings)
        },
    }
}

/// The finding is what there is to find out about the item: the name of its file was asked for the
/// format, and the reader for the file.
pub open spec fn was_found<R: Fn(String) -> ItemFile>(
    reader: R,
    name: Seq<char>,
    finding: Finding,
) -> bool {
    &&& format_fits(name, finding.known)
    &&& was_read(reader, picture_path(name), finding.file)
}

/// Loads the picture of every item of a list.
///
/// `reader` is asked for the file of each item in turn. An item whose file is missing or is not a
/// picture is passed over with a warning; a file that cannot be opened ends the loading.
pub fn load_item_images<R: Fn(String) -> ItemFile>(list: &str, reader: R) -> (items: Result<
    LoadedItems,
    UnreadableItem,
>)
    requires
        forall|p: String| #[trigger] call_requires(reader, (p,)),
    ensures
        exists|findings: Seq<Finding>|
            {
                &&& #[trigger] outcome(lines(list@), findings, items)
                &&& forall|i: int|
                    0 <= i < findings.len() ==> was_found(
                        reader,
                        lines(list@)[i],
                        #[trigger] findings[i],
                    )
            },
{
    let names = item_names(list);
    let ghost all = lines(list@);
    let ghost mut findings: Seq<Finding> = Seq::empty();
    let mut items = LoadedItems { images: StringHashMap::new(), warnings: Vec::new() };
    assert(items.warnings@.map_values(|w: ItemWarning| w@) =~= complaints(all, findings));
    assert(items.images@.dom() =~= catalogue(all, findings).dom());
    for i in 0..names.len()
        invariant
            all == lines(list@),
            names@.len() == all.len(),
            forall|k: int| 0 <= k < names@.len() ==> (#[trigger] names@[k])@ == all[k],
            forall|p: String| #[trigger] call_requires(reader, (p,)),
            findings.len() == i,
            forall|k: int|
                0 <= k < findings.len() ==> !((#[trigger] findings[k]).file is Unreadable),
            forall|k: int|
                0 <= k < findings.len() ==> was_found(reader, all[k], #[trigger] findings[k]),
            items.loaded(all, findings),
    {
        let name = names[i].clone();
        let path = item_image_path(name.as_str());
        let known = names_png(path.as_str());
        let file = reader(path);
        let finding = Finding { known, file };
        let ghost more = findings.push(finding);
        assert(was_read(reader, picture_path(all[i as int]), file));
        assert forall|k: int| 0 <= k < more.len() implies was_found(
            reader,
            all[k],
            #[trigger] more[k],
        ) by {
            if k < findings.len() {
                assert(more[k] == findings[k]);
            }
        }
        let readable = items.take_in(name, finding, Ghost(all), Ghost(findings));
        proof {
            findings = more;
        }
        if !readable {
            let unreadable = UnreadableItem {
                item: names[i].clone(),
                warnings: items.warnings,
            };
            assert(outcome(all, findings, Err(unreadable)));
            return Err(unreadable);
        }
    }
    assert(outcome(all, findings, Ok(items)));
    Ok(items)
}

/// An item is in the catalogue exactly if a picture was made out under its name.
pub proof fn lemma_catalogue_holds_pictures(
    names: Seq<Seq<char>>,
    findings: Seq<Finding>,
    name: Seq<char>,
)
    requires
        findings.len() <= names.len(),
    ensures
        catalogue(names, findings).dom().contains(name) <==> exists|i: int|
            0 <= i < findings.len() && names[i] == name && item_picture(
                #[trigger] findings[i],
            ) is Some,
    decreases findings.len(),
{
    if findings.len() > 0 {
        let n = findings.len() - 1;
        let fewer = findings.drop_last();
        lemma_catalogue_holds_pictures(names, fewer, name);
        if catalogue(names, fewer).dom().contains(name) {
            let i = choose|i: int|
                0 <= i < fewer.len() && names[i] == name && item_picture(
                    #[trigger] fewer[i],
                ) is Some;
            assert(item_picture(findings[i]) is Some);
        }
        if names[n] == name && item_picture(findings[n]) is Some {
            assert(catalogue(names, findings).dom().contains(name));
        } else if catalogue(names, findings).dom().contains(name) {
            assert(catalogue(names, fewer).dom().contains(name));
        } else {
            assert forall|i: int| 0 <= i < findings.len() && names[i] == name implies item_picture(
                #[trigger] findings[i],
            ) is None by {
                if i < n {
                    assert(fewer[i] == findings[i]);
                }
            }
        }
    }
}

/// The picture of an item is the last one that was made out under its name.
pub proof fn lemma_last_picture_counts(names: Seq<Seq<char>>, findings: Seq<Finding>, i: int)
    requires
        findings.len() <= names.len(),
        0 <= i < findings.len(),
        item_picture(findings[i]) is Some,
        forall|j: int|
            i < j < findings.len() && names[j] == names[i] ==> item_picture(
                #[trigger] findings[j],
            ) is None,
    ensures
        catalogue(names, findings).dom().contains(names[i]),
        catalogue(names, findings)[names[i]] == item_picture(findings[i]).unwrap(),
    decreases findings.len(),
{
    let n = findings.len() - 1;
    let fewer = findings.drop_last();
    if i < n {
        assert(fewer[i] == findings[i]);
        assert forall|j: int| i < j < fewer.len() && names[j] == names[i] implies item_picture(
            #[trigger] fewer[j],
        ) is None by {
            assert(fewer[j] == findings[j]);
        }
        lemma_last_picture_counts(names, fewer, i);
    }
}

/// Only the names of the items that were looked for count.
proof fn lemma_catalogue_goes_by_leading_names(
    names: Seq<Seq<char>>,
    other: Seq<Seq<char>>,
    findings: Seq<Finding>,
)
    requires
        forall|k: int| 0 <= k < findings.len() ==> #[trigger] names[k] == other[k],
    ensures
        catalogue(names, findings) == catalogue(other, findings),
    decreases findings.len(),
{
    if findings.len() > 0 {
        let n = findings.len() - 1;
        lemma_catalogue_goes_by_leading_names(names, other, findings.drop_last());
        assert(names[n] == other[n]);
    }
}

/// An item without a picture changes nothing else: the catalogue is the one of the list without
/// it.
pub proof fn lemma_item_without_picture_plays_no_part(
    names: Seq<Seq<char>>,
    findings: Seq<Finding>,
    i: int,
)
    requires
        0 <= i < findings.len() <= names.len(),
        item_picture(findings[i]) is None,
    ensures
        catalogue(names.remove(i), findings.remove(i)) == catalogue(names, findings),
    decreases findings.len(),
{
    let n = findings.len() - 1;
    let fewer = findings.drop_last();
    if i == n {
        assert(findings.remove(i) =~= fewer);
        lemma_catalogue_goes_by_leading_names(names.remove(i), names, fewer);
    } else {
        assert(fewer[i] == findings[i]);
        lemma_item_without_picture_plays_no_part(names, fewer, i);
        assert(findings.remove(i).drop_last() =~= fewer.remove(i));
        assert(findings.remove(i)[n - 1] == findings[n]);
        assert(names.remove(i)[n - 1] == names[n]);
    }
}

/// Every finding is what `picture` says of its name.
pub open spec fn pictured(
    names: Seq<Seq<char>>,
    findings: Seq<Finding>,
    picture: spec_fn(Seq<char>) -> Option<Grid>,
) -> bool {
    forall|i: int|
        0 <= i < findings.len() ==> item_picture(#[trigger] findings[i]) == picture(names[i])
}

/// Where the names decide what is found, the catalogue holds the pictures of the names.
proof fn lemma_catalogue_of_pictures(
    names: Seq<Seq<char>>,
    findings: Seq<Finding>,
    picture: spec_fn(Seq<char>) -> Option<Grid>,
    name: Seq<char>,
)
    requires
        findings.len() == names.len(),
        pictured(names, findings, picture),
    ensures
        catalogue(names, findings).dom().contains(name) <==> names.contains(name) && picture(
            name,
        ) is Some,
        catalogue(names, findings).dom().contains(name) ==> catalogue(names, findings)[name]
            == picture(name).unwrap(),
    decreases findings.len(),
{
    if findings.len() > 0 {
        let n = findings.len() - 1;
        let fewer = findings.drop_last();
        let before = names.drop_last();
        assert forall|i: int| 0 <= i < fewer.len() implies item_picture(#[trigger] fewer[i])
            == picture(before[i]) by {
            assert(fewer[i] == findings[i]);
        }
        lemma_catalogue_of_pictures(before, fewer, picture, name);
        lemma_catalogue_goes_by_leading_names(before, names, fewer);
        assert(item_picture(findings[n]) == picture(names[n]));
        assert(names =~= before.push(names[n]));
        if before.contains(name) {
            let k = choose|k: int| 0 <= k < before.len() && before[k] == name;
            assert(names[k] == name);
        }
        if names.contains(name) {
            let k = choose|k: int| 0 <= k < names.len() && names[k] == name;
            assert(k < n ==> before[k] == name);
        }
    }
}

/// The order of the list and repetitions in it play no part: where the names decide what is found,
/// two lists of the same names make the same catalogue.
pub proof fn lemma_order_plays_no_part(
    names: Seq<Seq<char>>,
    findings: Seq<Finding>,
    other_names: Seq<Seq<char>>,
    other_findings: Seq<Finding>,
    picture: spec_fn(Seq<char>) -> Option<Grid>,
)
    requires
        findings.len() == names.len(),
        other_findings.len() == other_names.len(),
        pictured(names, findings, picture),
        pictured(other_names, other_findings, picture),
        names.to_set() == other_names.to_set(),
    ensures
        catalogue(names, findings) == catalogue(other_names, other_findings),
{
    let one = catalogue(names, findings);
    let other = catalogue(other_names, other_findings);
    assert forall|name: Seq<char>|
        {
            &&& #[trigger] one.dom().contains(name) <==> other.dom().contains(name)
            &&& one.dom().contains(name) ==> one[name] == other[name]
        } by {
        lemma_catalogue_of_pictures(names, findings, picture, name);
        lemma_catalogue_of_pictures(other_names, other_findings, picture, name);
        assert(names.to_set().contains(name) == names.contains(name));
        assert(other_names.to_set().contains(name) == other_names.contains(name));
    }
    assert(one =~= other);
}

/// There are no more pictures than different names.
pub proof fn lemma_catalogue_is_no_larger_than_the_list(
    names: Seq<Seq<char>>,
    findings: Seq<Finding>,
)
    requires
        findings.len() <= names.len(),
    ensures
        catalogue(names, findings).dom().finite(),
        catalogue(names, findings).len() <= names.to_set().len(),
{
    let held = catalogue(names, findings).dom();
    assert forall|name: Seq<char>| held.contains(name) implies names.to_set().contains(name) by {
        lemma_catalogue_holds_pictures(names, findings, name);
        let i = choose|i: int|
            0 <= i < findings.len() && names[i] == name && item_picture(
                #[trigger] findings[i],
            ) is Some;
        assert(names.contains(names[i]));
    }
    vstd::seq_lib::seq_to_set_is_finite(names);
    vstd::set_lib::lemma_len_subset(held, names.to_set());
}

/// The files hold the same.
pub open spec fn same_file(file: ItemFile, other: ItemFile) -> bool {
    match (file, other) {
        (ItemFile::Missing, ItemFile::Missing) => true,
        (ItemFile::Unreadable, ItemFile::Unreadable) => true,
        (ItemFile::Found(bytes), ItemFile::Found(other_bytes)) => bytes@ == other_bytes@,
        _ => false,
    }
}

/// The files stay as they are: asked twice for the same file, the reader answers the same.
pub open spec fn goes_by_path<R: Fn(String) -> ItemFile>(reader: R) -> bool {
    forall|path: String, other_path: String, file: ItemFile, other: ItemFile|
        path@ == other_path@ && #[trigger] call_ensures(reader, (path,), file)
            && #[trigger] call_ensures(reader, (other_path,), other) ==> same_file(file, other)
}

/// Whether the file of the name has an extension is up to the platform.
pub open spec fn ends_in_backslash(name: Seq<char>) -> bool {
    name.len() > 0 && name.last() == '\\'
}

/// What there is to find out about the name never shows a picture.
pub open spec fn has_no_picture<R: Fn(String) -> ItemFile>(reader: R, name: Seq<char>) -> bool {
    forall|finding: Finding| #[trigger]
        was_found(reader, name, finding) ==> item_picture(finding) is None
}

/// The file of the name, if there is one, can be opened.
pub open spec fn can_be_opened<R: Fn(String) -> ItemFile>(reader: R, name: Seq<char>) -> bool {
    forall|finding: Finding| #[trigger]
        was_found(reader, name, finding) ==> !(finding.file is Unreadable)
}

/// The picture that there is to find under a name.
spec fn picture_under<R: Fn(String) -> ItemFile>(reader: R, name: Seq<char>) -> Option<Grid> {
    item_picture(choose|finding: Finding| was_found(reader, name, finding))
}

/// Whatever is found under a name, it shows the same.
proof fn lemma_name_decides<R: Fn(String) -> ItemFile>(reader: R, name: Seq<char>, finding: Finding)
    requires
        goes_by_path(reader),
        !ends_in_backslash(name),
        was_found(reader, name, finding),
    ensures
        item_picture(finding) == picture_under(reader, name),
{
    let other = choose|other: Finding| was_found(reader, name, other);
    let path = picture_path(name);
    let p = choose|p: String| p@ == path && #[trigger] call_ensures(reader, (p,), finding.file);
    let q = choose|q: String| q@ == path && #[trigger] call_ensures(reader, (q,), other.file);
    assert(same_file(finding.file, other.file));
}

/// The images are those of the same names and show the same.
pub open spec fn same_images(items: LoadedItems, other: LoadedItems) -> bool {
    &&& items.images@.dom() == other.images@.dom()
    &&& forall|name: Seq<char>|
        items.images@.dom().contains(name) ==> (#[trigger] items.images@[name])@
            == other.images@[name]@
}

/// Loading succeeds where every file can be opened.
pub proof fn lemma_loading_succeeds<R: Fn(String) -> ItemFile>(
    reader: R,
    list: &str,
    items: Result<LoadedItems, UnreadableItem>,
)
    requires
        call_ensures(load_item_images::<R>, (list, reader), items),
        forall|i: int|
            0 <= i < lines(list@).len() ==> can_be_opened(reader, #[trigger] lines(list@)[i]),
    ensures
        items is Ok,
{
    let names = lines(list@);
    let findings = choose|findings: Seq<Finding>|
        {
            &&& #[trigger] outcome(names, findings, items)
            &&& forall|i: int|
                0 <= i < findings.len() ==> was_found(reader, names[i], #[trigger] findings[i])
        };
    if items is Err {
        let n = findings.len() - 1;
        assert(was_found(reader, names[n], findings[n]));
        assert(can_be_opened(reader, names[n]));
    }
}

/// Two lists of the same lines load the same images, whatever the order of the lines and however
/// often one is repeated, and there are no more images than different lines. The files stay as
/// they are meanwhile, and for no line the format is up to the platform.
pub proof fn lemma_order_of_lines_plays_no_part<R: Fn(String) -> ItemFile>(
    reader: R,
    list: &str,
    other_list: &str,
    items: LoadedItems,
    other: LoadedItems,
)
    requires
        goes_by_path(reader),
        call_ensures(
            load_item_images::<R>,
            (list, reader),
            Ok::<LoadedItems, UnreadableItem>(items),
        ),
        call_ensures(
            load_item_images::<R>,
            (other_list, reader),
            Ok::<LoadedItems, UnreadableItem>(other),
        ),
        lines(list@).to_set() == lines(other_list@).to_set(),
        forall|i: int|
            0 <= i < lines(list@).len() ==> !ends_in_backslash(#[trigger] lines(list@)[i]),
    ensures
        same_images(items, other),
        items.images@.len() <= lines(list@).to_set().len(),
{
    let names = lines(list@);
    let other_names = lines(other_list@);
    let result = Ok::<LoadedItems, UnreadableItem>(items);
    let other_result = Ok::<LoadedItems, UnreadableItem>(other);
    let findings = choose|findings: Seq<Finding>|
        {
            &&& #[trigger] outcome(names, findings, result)
            &&& forall|i: int|
                0 <= i < findings.len() ==> was_found(reader, names[i], #[trigger] findings[i])
        };
    let other_findings = choose|findings: Seq<Finding>|
        {
            &&& #[trigger] outcome(other_names, findings, other_result)
            &&& forall|i: int|
                0 <= i < findings.len() ==> was_found(
                    reader,
                    other_names[i],
                    #[trigger] findings[i],
                )
        };
    let picture = |name: Seq<char>| picture_under(reader, name);
    assert forall|i: int| 0 <= i < findings.len() implies item_picture(#[trigger] findings[i])
        == picture(names[i]) by {
        lemma_name_decides(reader, names[i], findings[i]);
    }
    assert forall|i: int| 0 <= i < other_findings.len() implies item_picture(
        #[trigger] other_findings[i],
    ) == picture(other_names[i]) by {
        assert(other_names.to_set().contains(other_names[i]));
        assert(names.to_set().contains(other_names[i]));
        lemma_name_decides(reader, other_names[i], other_findings[i]);
    }
    lemma_order_plays_no_part(names, findings, other_names, other_findings, picture);
    lemma_catalogue_is_no_larger_than_the_list(names, findings);
}

/// A line without a picture is passed over and changes nothing else: its name is not loaded, and
/// the images are those of the list without it. The files stay as they are meanwhile, and for no
/// other line the format is up to the platform.
pub proof fn lemma_line_without_picture_plays_no_part<R: Fn(String) -> ItemFile>(
    reader: R,
    list: &str,
    other_list: &str,
    i: int,
    items: LoadedItems,
    other: LoadedItems,
)
    requires
        goes_by_path(reader),
        call_ensures(
            load_item_images::<R>,
            (list, reader),
            Ok::<LoadedItems, UnreadableItem>(items),
        ),
        call_ensures(
            load_item_images::<R>,
            (other_list, reader),
            Ok::<LoadedItems, UnreadableItem>(other),
        ),
        0 <= i < lines(list@).len(),
        has_no_picture(reader, lines(list@)[i]),
        lines(other_list@) == lines(list@).remove(i),
        forall|k: int|
            0 <= k < lines(list@).len() && k != i ==> !ends_in_backslash(
                #[trigger] lines(list@)[k],
            ),
    ensures
        !items.images@.dom().contains(lines(list@)[i]),
        same_images(items, other),
{
    let names = lines(list@);
    let rest = lines(other_list@);
    let result = Ok::<LoadedItems, UnreadableItem>(items);
    let other_result = Ok::<LoadedItems, UnreadableItem>(other);
    let findings = choose|findings: Seq<Finding>|
        {
            &&& #[trigger] outcome(names, findings, result)
            &&& forall|k: int|
                0 <= k < findings.len() ==> was_found(reader, names[k], #[trigger] findings[k])
        };
    let other_findings = choose|findings: Seq<Finding>|
        {
            &&& #[trigger] outcome(rest, findings, other_result)
            &&& forall|k: int|
                0 <= k < findings.len() ==> was_found(reader, rest[k], #[trigger] findings[k])
        };
    let left = findings.remove(i);
    let picture = |name: Seq<char>| picture_under(reader, name);
    assert forall|k: int| 0 <= k < left.len() implies item_picture(#[trigger] left[k])
        == picture(rest[k]) by {
        let j = if k < i {
            k
        } else {
            k + 1
        };
        assert(left[k] == findings[j] && rest[k] == names[j]);
        lemma_name_decides(reader, names[j], findings[j]);
    }
    assert forall|k: int| 0 <= k < other_findings.len() implies item_picture(
        #[trigger] other_findings[k],
    ) == picture(rest[k]) by {
        let j = if k < i {
            k
        } else {
            k + 1
        };
        assert(rest[k] == names[j]);
        lemma_name_decides(reader, rest[k], other_findings[k]);
    }
    assert(was_found(reader, names[i], findings[i]));
    lemma_item_without_picture_plays_no_part(names, findings, i);
    lemma_order_plays_no_part(rest, left, rest, other_findings, picture);
    lemma_catalogue_holds_pictures(names, findings, names[i]);
    assert forall|k: int| 0 <= k < findings.len() && names[k] == names[i] implies item_picture(
        #[trigger] findings[k],
    ) is None by {
        assert(was_found(reader, names[i], findings[k]));
    }
}

/// The names are the lines of the list. An empty list has none. A list without a line break has
/// one, which is all of it. And where a list starts with a line that a line break ends, that line
/// is the first name, without a carriage return at its end, and the other names are those of the
/// list behind the break.
pub proof fn lemma_names_are_the_lines(
    list: &str,
    names: Vec<String>,
    head: Seq<char>,
    tail: &str,
    rest: Vec<String>,
)
    requires
        call_ensures(item_names, (list,), names),
        call_ensures(item_names, (tail,), rest),
    ensures
        list@.len() == 0 ==> names@.len() == 0,
        list@.len() > 0 && (forall|i: int| 0 <= i < list@.len() ==> #[trigger] list@[i] != '\n')
            ==> names@.len() == 1 && names@[0]@ == list@,
        list@ == head + seq!['\n'] + tail@ && (forall|i: int|
            0 <= i < head.len() ==> #[trigger] head[i] != '\n') ==> {
            &&& names@.len() == rest@.len() + 1
            &&& names@[0]@ == if head.len() > 0 && head[head.len() - 1] == '\r' {
                head.take(head.len() - 1)
            } else {
                head
            }
            &&& forall|i: int|
                0 <= i < rest@.len() ==> names@[i + 1]@ == (#[trigger] rest@[i])@
        },
{
    let text = list@;
    if text.len() > 0 && forall|i: int| 0 <= i < text.len() ==> #[trigger] text[i] != '\n' {
        lemma_line_end_is(text, text.len() as int);
    }
    if text == head + seq!['\n'] + tail@ && forall|i: int|
        0 <= i < head.len() ==> #[trigger] head[i] != '\n' {
        let end = head.len() as int;
        assert forall|i: int| 0 <= i < end implies text[i] != '\n' by {
            assert(text[i] == head[i]);
        }
        assert(text[end] == '\n');
        lemma_line_end_is(text, end);
        assert(text.take(end) =~= head);
        assert(text.skip(end + 1) =~= tail@);
        assert(lines(text) == seq![without_return(head)] + lines(tail@));
        assert forall|i: int| 0 <= i < rest@.len() implies names@[i + 1]@ == (
        #[trigger] rest@[i])@ by {
            assert(lines(text)[i + 1] == lines(tail@)[i]);
        }
    }
}

/// The picture of an item is looked for in the directory of the items, under its name.
pub proof fn lemma_picture_is_in_the_directory(name: &str, path: String)
    requires
        call_ensures(item_image_path, (name,), path),
    ensures
        path@ == "captcha-screenshots/items/"@ + name@ + ".png"@,
{
}

/// A file is decoded exactly if its format is known, its palette is sound and the decoder makes a
/// picture of its bytes; and the image shows that picture, whatever its size.
pub proof fn lemma_item_shows_the_decoded_picture(
    known: bool,
    bytes: Vec<u8>,
    image: Result<Image, ItemError>,
)
    requires
        call_ensures(decode_item, (known, &bytes), image),
    ensures
        image is Ok <==> known && sound_palette(bytes@) && decoded_png(bytes@) is Some,
        image matches Err(ItemError::UnknownFormat) <==> !known,
        image matches Err(ItemError::NoPicture(DecodeError::UnsoundPalette)) <==> known
            && !sound_palette(bytes@),
        image matches Ok(i) ==> decoded_png(bytes@) matches Some((width, height, bits)) ==> {
            &&& i@.width == width
            &&& i@.height == height
            &&& i@.cells.len() == bits.len()
            &&& forall|k: int| 0 <= k < bits.len() ==> (#[trigger] i@.cells[k]).bits == bits[k]
        },
{
}

/// Each complaint is about one of the items that have no picture and could be opened, in the order
/// of the list, and each such item has one.
proof fn lemma_complaints_are_about(names: Seq<Seq<char>>, findings: Seq<Finding>) -> (about: Seq<
    int,
>)
    requires
        findings.len() <= names.len(),
    ensures
        about.len() == complaints(names, findings).len(),
        forall|k: int|
            0 <= k < about.len() ==> {
                &&& 0 <= #[trigger] about[k] < findings.len()
                &&& complaint(names[about[k]], findings[about[k]]) == Some(
                    complaints(names, findings)[k],
                )
            },
        forall|k: int, m: int| 0 <= k < m < about.len() ==> #[trigger] about[k] < #[trigger] about[m],
        forall|i: int|
            0 <= i < findings.len() && complaint(names[i], #[trigger] findings[i]) is Some
                ==> about.contains(i),
    decreases findings.len(),
{
    if findings.len() == 0 {
        Seq::empty()
    } else {
        let n = findings.len() - 1;
        let fewer = findings.drop_last();
        let earlier = lemma_complaints_are_about(names, fewer);
        let before = complaints(names, fewer);
        assert forall|k: int| 0 <= k < earlier.len() implies {
            &&& 0 <= #[trigger] earlier[k] < n
            &&& complaint(names[earlier[k]], findings[earlier[k]]) == Some(before[k])
        } by {
            assert(fewer[earlier[k]] == findings[earlier[k]]);
        }
        assert forall|i: int|
            0 <= i < n && complaint(names[i], #[trigger] findings[i]) is Some implies earlier.contains(
            i,
        ) by {
            assert(fewer[i] == findings[i]);
        }
        if complaint(names[n], findings[n]) is Some {
            let about = earlier.push(n);
            assert forall|i: int|
                0 <= i < findings.len() && complaint(
                    names[i],
                    #[trigger] findings[i],
                ) is Some implies about.contains(i) by {
                if i < n {
                    let k = choose|k: int| 0 <= k < earlier.len() && earlier[k] == i;
                    assert(about[k] == i);
                } else {
                    assert(about[earlier.len() as int] == i);
                }
            }
            about
        } else {
            earlier
        }
    }
}

/// Every line of the list has either an image or a warning, whatever the size of its picture.
///
/// The lines are taken in order, up to the first one whose file cannot be opened; the loading
/// succeeds exactly if there is none. For each the file in the directory of the items is asked
/// for. A name that is empty or ends in a slash does not tell the format, and any other name does,
/// but for one that ends in a backslash, of which nothing is said. A line shows a picture exactly
/// if the format is told, the file is found, its palette is sound and the decoder makes a picture
/// of its bytes. Then the name is among the images, and the image is the decoded picture of the
/// last such line with that name; and there are no other images. Of the other lines each has a
/// warning, in the order of the list: that there is no file, or what is wrong with it.
pub proof fn lemma_every_line_has_an_image_or_a_warning<R: Fn(String) -> ItemFile>(
    list: &str,
    reader: R,
    names: Vec<String>,
    items: Result<LoadedItems, UnreadableItem>,
)
    requires
        call_ensures(item_names, (list,), names),
        call_ensures(load_item_images::<R>, (list, reader), items),
    ensures
        exists|findings: Seq<Finding>, shows: Seq<bool>, about: Seq<int>|
            {
                let warnings = match items {
                    Ok(loaded) => loaded.warnings@,
                    Err(unreadable) => unreadable.warnings@,
                };
                &&& #[trigger] findings.len() <= names@.len()
                &&& #[trigger] shows.len() == findings.len()
                &&& #[trigger] about.len() == warnings.len()
                &&& forall|i: int|
                    0 <= i < findings.len() ==> {
                        let name = names@[i]@;
                        &&& exists|path: String|
                            path@ == "captcha-screenshots/items/"@ + name + ".png"@
                                && #[trigger] call_ensures(
                                reader,
                                (path,),
                                (#[trigger] findings[i]).file,
                            )
                        &&& name.len() == 0 || name[name.len() - 1] == '/' ==> !findings[i].known
                        &&& name.len() > 0 && name[name.len() - 1] != '/' && name[name.len() - 1]
                            != '\\' ==> findings[i].known
                    }
                &&& items is Ok <==> findings.len() == names@.len() && forall|i: int|
                    0 <= i < findings.len() ==> !((#[trigger] findings[i]).file is Unreadable)
                &&& items matches Err(unreadable) ==> {
                    let n = findings.len() - 1;
                    &&& n >= 0
                    &&& findings[n].file is Unreadable
                    &&& unreadable.item@ == names@[n]@
                    &&& forall|i: int|
                        0 <= i < n ==> !((#[trigger] findings[i]).file is Unreadable)
                }
                &&& forall|i: int|
                    0 <= i < findings.len() ==> (#[trigger] shows[i] <==> findings[i].known && (
                    findings[i].file matches ItemFile::Found(bytes) && sound_palette(bytes@)
                        && decoded_png(bytes@) is Some))
                &&& items matches Ok(loaded) ==> {
                    &&& forall|i: int|
                        0 <= i < findings.len() && #[trigger] shows[i]
                            ==> loaded.images@.contains_key(names@[i]@)
                    &&& forall|i: int|
                        0 <= i < findings.len() && #[trigger] shows[i] && (forall|j: int|
                            i < j < findings.len() && #[trigger] shows[j] ==> names@[j]@
                                != names@[i]@) ==> (
                        findings[i].file matches ItemFile::Found(bytes) ==> (decoded_png(
                            bytes@,
                        ) matches Some((width, height, bits)) ==> {
                            let image = loaded.images@[names@[i]@]@;
                            &&& image.width == width
                            &&& image.height == height
                            &&& image.cells.len() == bits.len()
                            &&& forall|k: int|
                                0 <= k < bits.len() ==> (#[trigger] image.cells[k]).bits == bits[k]
                        }))
                    &&& forall|name: Seq<char>|
                        #![trigger loaded.images@.contains_key(name)]
                        loaded.images@.contains_key(name) ==> exists|i: int|
                            0 <= i < findings.len() && #[trigger] shows[i] && names@[i]@ == name
                }
                &&& forall|k: int, m: int|
                    0 <= k < m < about.len() ==> #[trigger] about[k] < #[trigger] about[m]
                &&& forall|k: int|
                    0 <= k < about.len() ==> {
                        let i = #[trigger] about[k];
                        &&& 0 <= i < findings.len()
                        &&& !shows[i]
                        &&& match findings[i].file {
                            ItemFile::Missing => warnings[k] matches ItemWarning::NotFound(name)
                                && name@ == names@[i]@,
                            ItemFile::Unreadable => false,
                            ItemFile::Found(bytes) => warnings[k] matches ItemWarning::NotDecoded(
                                name,
                                error,
                            ) && name@ == names@[i]@ && (error is UnknownFormat <==> !findings[i].known)
                                && (error matches ItemError::NoPicture(DecodeError::UnsoundPalette)
                                <==> findings[i].known && !sound_palette(bytes@)),
                        }
                    }
                &&& forall|i: int|
                    #![trigger shows[i]]
                    0 <= i < findings.len() && !shows[i] && !(findings[i].file is Unreadable)
                        ==> about.contains(i)
            },
{
    let all = lines(list@);
    let findings = choose|findings: Seq<Finding>|
        {
            &&& #[trigger] outcome(all, findings, items)
            &&& forall|i: int|
                0 <= i < findings.len() ==> was_found(reader, all[i], #[trigger] findings[i])
        };
    let shows = Seq::new(findings.len(), |i: int| item_picture(findings[i]) is Some);
    let about = lemma_complaints_are_about(all, findings);
    let warnings = match items {
        Ok(loaded) => loaded.warnings@,
        Err(unreadable) => unreadable.warnings@,
    };
    assert(warnings.map_values(|w: ItemWarning| w@) == complaints(all, findings));
    assert(warnings.len() == about.len());
    assert forall|i: int| 0 <= i < findings.len() implies {
        let name = names@[i]@;
        &&& exists|path: String|
            path@ == "captcha-screenshots/items/"@ + name + ".png"@ && #[trigger] call_ensures(
                reader,
                (path,),
                (#[trigger] findings[i]).file,
            )
        &&& name.len() == 0 || name[name.len() - 1] == '/' ==> !findings[i].known
        &&& name.len() > 0 && name[name.len() - 1] != '/' && name[name.len() - 1] != '\\'
            ==> findings[i].known
    } by {
        assert(was_found(reader, all[i], findings[i]));
    }
    assert forall|k: int| 0 <= k < about.len() implies {
        let i = #[trigger] about[k];
        &&& 0 <= i < findings.len()
        &&& !shows[i]
        &&& match findings[i].file {
            ItemFile::Missing => warnings[k] matches ItemWarning::NotFound(name) && name@
                == names@[i]@,
            ItemFile::Unreadable => false,
            ItemFile::Found(bytes) => warnings[k] matches ItemWarning::NotDecoded(name, error)
                && name@ == names@[i]@ && (error is UnknownFormat <==> !findings[i].known) && (
            error matches ItemError::NoPicture(DecodeError::UnsoundPalette) <==> findings[i].known
                && !sound_palette(bytes@)),
        }
    } by {
        let i = about[k];
        assert(warnings.map_values(|w: ItemWarning| w@)[k] == warnings[k]@);
        assert(complaint(all[i], findings[i]) == Some(warnings[k]@));
    }
    assert forall|i: int|
        #![trigger shows[i]]
        0 <= i < findings.len() && !shows[i] && !(
        findings[i].file is Unreadable) implies about.contains(i) by {
        assert(complaint(all[i], findings[i]) is Some);
    }
    if let Ok(loaded) = items {
        let pictures = catalogue(all, findings);
        assert forall|i: int| 0 <= i < findings.len() && #[trigger] shows[i] implies {
            &&& loaded.images@.contains_key(names@[i]@)
            &&& (forall|j: int|
                i < j < findings.len() && #[trigger] shows[j] ==> names@[j]@ != names@[i]@)
                ==> loaded.images@[names@[i]@]@ == item_picture(findings[i]).unwrap()
        } by {
            lemma_catalogue_holds_pictures(all, findings, all[i]);
            assert(item_picture(findings[i]) is Some);
            if forall|j: int|
                i < j < findings.len() && #[trigger] shows[j] ==> names@[j]@ != names@[i]@ {
                assert forall|j: int|
                    i < j < findings.len() && all[j] == all[i] implies item_picture(
                    #[trigger] findings[j],
                ) is None by {
                    assert(!shows[j]);
                }
                lemma_last_picture_counts(all, findings, i);
            }
        }
        assert forall|name: Seq<char>| #[trigger]
            loaded.images@.contains_key(name) implies exists|i: int|
            0 <= i < findings.len() && #[trigger] shows[i] && names@[i]@ == name by {
            lemma_catalogue_holds_pictures(all, findings, name);
            assert(pictures.dom().contains(name));
            let i = choose|i: int|
                0 <= i < findings.len() && all[i] == name && item_picture(
                    #[trigger] findings[i],
                ) is Some;
            assert(shows[i]);
        }
    }
    assert(findings.len() <= names@.len() && shows.len() == findings.len() && about.len()
        == warnings.len());
}

} // verus!
