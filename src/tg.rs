//! The source platform's pack and sticker descriptors.
use vstd::prelude::*;
use crate::import::{failed, imported, reduce_outcomes, ImportError, StickerOutcome};
use crate::import::Sticker as ImportedSticker;
use crate::text::{is_prefix_of, strip_prefix};

verus! {

/// One sticker as the source platform describes it.
#[derive(Clone, Debug)]
pub struct Sticker {
    pub emoji: String,
    pub file_id: String,
    pub width: u32,
    pub height: u32,
    pub is_video: bool,
    /// Name of the pack this sticker was loaded from (stamped at load time).
    pub pack_name: String,
    /// Position of this sticker inside its pack (stamped at load time).
    pub position: usize,
}

/// A sticker pack of the source platform: its metadata and its stickers in
/// pack order.
#[derive(Clone, Debug)]
#[non_exhaustive]
pub struct StickerPack {
    pub name: String,
    pub title: String,
    pub is_animated: bool,
    pub is_video: bool,
    pub stickers: Vec<Sticker>,
}

/// The error of `pack_url_to_name`: the url does not name a pack.
#[derive(Clone, Debug)]
pub struct PackUrlError {
    pub url: String,
}

pub open spec fn url_prefix_https() -> Seq<char> {
    "https://t.me/addstickers/"@
}

pub open spec fn url_prefix_plain() -> Seq<char> {
    "t.me/addstickers/"@
}

pub open spec fn url_prefix_scheme() -> Seq<char> {
    "tg://addstickers?set="@
}

/// The pack name that `url` designates, trying the accepted prefixes in order.
pub open spec fn spec_pack_name(url: Seq<char>) -> Option<Seq<char>> {
    if is_prefix_of(url_prefix_https(), url) {
        Some(url.subrange(url_prefix_https().len() as int, url.len() as int))
    } else if is_prefix_of(url_prefix_plain(), url) {
        Some(url.subrange(url_prefix_plain().len() as int, url.len() as int))
    } else if is_prefix_of(url_prefix_scheme(), url) {
        Some(url.subrange(url_prefix_scheme().len() as int, url.len() as int))
    } else {
        None
    }
}

/// Convert a pack url to the pack's name.
///
/// The url must start with `https://t.me/addstickers/`, `t.me/addstickers/` or
/// `tg://addstickers?set=`; the name is what follows the prefix.
pub fn pack_url_to_name(url: &str) -> (r: Result<&str, PackUrlError>)
    ensures
        r matches Ok(name) ==> spec_pack_name(url@) == Some(name@),
        r matches Err(e) ==> spec_pack_name(url@) is None && e.url@ == url@,
        r is Ok <==> spec_pack_name(url@) is Some,
{
    if let Some(rest) = strip_prefix(url, "https://t.me/addstickers/") {
        return Ok(rest);
    }
    if let Some(rest) = strip_prefix(url, "t.me/addstickers/") {
        return Ok(rest);
    }
    if let Some(rest) = strip_prefix(url, "tg://addstickers?set=") {
        return Ok(rest);
    }
    Err(PackUrlError { url: String::from_str(url) })
}

/// Summary of the source pack that a destination pack refers back to.
#[derive(Clone, Debug)]
pub struct PackSummary {
    pub name: String,
    pub title: String,
    pub is_animated: bool,
    pub is_video: bool,
}

/// The destination pack: title, an identifier derived from the source pack's
/// name, the source pack's summary and the imported stickers in order.
#[derive(Clone, Debug)]
pub struct DestinationPack {
    pub title: String,
    pub id: String,
    pub tg_pack: PackSummary,
    pub stickers: Vec<ImportedSticker>,
    /// No sticker was imported; callers should warn.
    pub empty: bool,
}

pub open spec fn id_prefix() -> Seq<char> {
    "tg_name_"@
}

/// Same sticker, stamped with its pack's name and its position.
pub open spec fn stamped_from(new: Sticker, old: Sticker, pack_name: Seq<char>, position: int) -> bool {
    &&& new.emoji == old.emoji
    &&& new.file_id == old.file_id
    &&& new.width == old.width
    &&& new.height == old.height
    &&& new.is_video == old.is_video
    &&& new.pack_name@ == pack_name
    &&& new.position == position
}

impl StickerPack {
    pub open spec fn summary_of(&self, s: PackSummary) -> bool {
        &&& s.name@ == self.name@
        &&& s.title@ == self.title@
        &&& s.is_animated == self.is_animated
        &&& s.is_video == self.is_video
    }

    /// The summary that a destination pack keeps of this pack.
    pub fn summary(&self) -> (r: PackSummary)
        ensures
            self.summary_of(r),
    {
        PackSummary {
            name: self.name.clone(),
            title: self.title.clone(),
            is_animated: self.is_animated,
            is_video: self.is_video,
        }
    }

    /// A pack with the given metadata and stickers.
    pub fn new(name: String, title: String, is_animated: bool, is_video: bool, stickers: Vec<Sticker>) -> (r: StickerPack)
        ensures
            r.name == name,
            r.title == title,
            r.is_animated == is_animated,
            r.is_video == is_video,
            r.stickers == stickers,
    {
        StickerPack { name, title, is_animated, is_video, stickers }
    }

    pub fn name(&self) -> (r: &String)
        ensures
            r == &self.name,
    {
        &self.name
    }

    pub fn title(&self) -> (r: &String)
        ensures
            r == &self.title,
    {
        &self.title
    }

    pub fn is_animated(&self) -> (r: &bool)
        ensures
            *r == self.is_animated,
    {
        &self.is_animated
    }

    pub fn is_video(&self) -> (r: &bool)
        ensures
            *r == self.is_video,
    {
        &self.is_video
    }

    pub fn stickers(&self) -> (r: &Vec<Sticker>)
        ensures
            r == &self.stickers,
    {
        &self.stickers
    }

    /// Stamp each sticker with this pack's name and its position in the pack.
    pub fn stamp_positions(self) -> (r: StickerPack)
        ensures
            r.name == self.name,
            r.title == self.title,
            r.is_animated == self.is_animated,
            r.is_video == self.is_video,
            r.stickers@.len() == self.stickers@.len(),
            forall|i: int|
                0 <= i < r.stickers@.len() ==> stamped_from(
                    #[trigger] r.stickers@[i],
                    self.stickers@[i],
                    self.name@,
                    i,
                ),
    {
        let StickerPack { name, title, is_animated, is_video, stickers } = self;
        let ghost all = stickers@;
        let n = stickers.len();
        let mut rest = stickers;
        let mut out: Vec<Sticker> = Vec::new();
        let mut i: usize = 0;
        proof {
            assert(rest@ =~= all.subrange(0, n as int));
        }
        while i < n
            invariant
                n == all.len(),
                i <= n,
                rest@ == all.subrange(i as int, n as int),
                out@.len() == i,
                forall|j: int| 0 <= j < i ==> stamped_from(#[trigger] out@[j], all[j], name@, j),
            decreases n - i,
        {
            let mut st = rest.remove(0);
            proof {
                assert(st == all[i as int]);
                assert(rest@ =~= all.subrange(i + 1, n as int));
            }
            st.pack_name = name.clone();
            st.position = i;
            out.push(st);
            i = i + 1;
        }
        StickerPack { name, title, is_animated, is_video, stickers: out }
    }

    /// Import this pack from the outcomes of its stickers, given in position
    /// order: the destination pack of the imported stickers, and the position
    /// and error of each sticker that failed. Check whether the pack is empty.
    pub fn import(self, outcomes: Vec<StickerOutcome>) -> (r: (DestinationPack, Vec<(usize, ImportError)>))
        ensures
            r.0.title@ == self.title@,
            r.0.id@ == id_prefix() + self.name@,
            self.summary_of(r.0.tg_pack),
            r.0.stickers@ == imported(outcomes@),
            r.0.empty == (imported(outcomes@).len() == 0),
            r.1@ == failed(outcomes@),
    {
        let result = reduce_outcomes(outcomes);
        let pack = assemble(&self, result.stickers);
        (pack, result.errors)
    }
}

/// Build the destination pack of `source` from its imported stickers.
pub fn assemble(source: &StickerPack, stickers: Vec<ImportedSticker>) -> (r: DestinationPack)
    ensures
        r.title@ == source.title@,
        r.id@ == id_prefix() + source.name@,
        source.summary_of(r.tg_pack),
        r.stickers@ == stickers@,
        r.empty == (stickers@.len() == 0),
{
    let mut id = String::from_str("tg_name_");
    id.append(source.name.as_str());
    let empty = stickers.len() == 0;
    DestinationPack { title: source.title.clone(), id, tg_pack: source.summary(), stickers, empty }
}

} // verus!
