//! What the router reads of a preprocessed request.

use vstd::hash_map::StringHashMap;
use vstd::prelude::*;

verus! {

/// Descriptor of media that has been decoded already.
#[derive(Clone, Copy, Debug)]
pub struct MediaDescriptor {
    /// Height and width, if the media is an image.
    pub height_width: Option<(usize, usize)>,
}

impl MediaDescriptor {
    /// Height and width of the decoded image, if it is one.
    pub fn image_height_width(&self) -> (hw: Option<(usize, usize)>)
        ensures
            hw == self.height_width,
    {
        self.height_width
    }
}

/// A multimodal item of a request.
#[derive(Debug)]
pub enum MultimodalData {
    /// The text of a URL that has been parsed.
    Url(String),
    /// A URL as the client wrote it.
    RawUrl(String),
    /// Media that has been decoded already.
    Decoded(MediaDescriptor),
}

/// The multimodal items of a request, by kind.
pub struct MultimodalDataMap {
    items: StringHashMap<Vec<MultimodalData>>,
}

impl View for MultimodalDataMap {
    type V = Map<Seq<char>, Seq<MultimodalData>>;

    closed spec fn view(&self) -> Self::V {
        self.items@.map_values(|v: Vec<MultimodalData>| v@)
    }
}

impl MultimodalDataMap {
    /// A map without items.
    pub fn new() -> (map: Self)
        ensures
            map@ == Map::<Seq<char>, Seq<MultimodalData>>::empty(),
    {
        let map = MultimodalDataMap { items: StringHashMap::new() };
        assert(map@ =~= Map::<Seq<char>, Seq<MultimodalData>>::empty());
        map
    }

    /// Sets the items of a kind.
    pub fn insert(&mut self, kind: String, items: Vec<MultimodalData>)
        ensures
            final(self)@ == old(self)@.insert(kind@, items@),
    {
        self.items.insert(kind, items);
        assert(self@ =~= old(self)@.insert(kind@, items@));
    }

    /// The items of a kind.
    pub fn get(&self, kind: &str) -> (items: Option<&Vec<MultimodalData>>)
        ensures
            match items {
                Some(v) => self@.contains_key(kind@) && v@ == self@[kind@],
                None => !self@.contains_key(kind@),
            },
    {
        self.items.get(kind)
    }
}

/// A routing sequence in which the multimodal tokens are expanded.
#[derive(Debug)]
pub struct MmRoutingInfo {
    pub routing_token_ids: Vec<u32>,
}

/// A request after tokenization.
pub struct PreprocessedRequest {
    /// Token ids of the prompt; an image is one placeholder.
    pub token_ids: Vec<u32>,
    /// Multimodal items, by kind.
    pub multi_modal_data: Option<MultimodalDataMap>,
    /// The expanded routing sequence, if one is attached.
    pub mm_routing_info: Option<MmRoutingInfo>,
}

impl PreprocessedRequest {
    /// The expanded routing sequence, if one is attached and not empty.
    pub open spec fn expanded_sequence(self) -> Option<Seq<u32>> {
        match self.mm_routing_info {
            Some(mm) => if mm.routing_token_ids@.len() > 0 {
                Some(mm.routing_token_ids@)
            } else {
                None
            },
            None => None,
        }
    }

    /// The images: the items of kind `image_url`.
    pub open spec fn images(self) -> Seq<MultimodalData> {
        match self.multi_modal_data {
            Some(mm) => if mm@.contains_key("image_url"@) {
                mm@["image_url"@]
            } else {
                seq![]
            },
            None => seq![],
        }
    }
}

/// All items under `image_url` are images, in their order, and no others.
pub proof fn law_images_are_the_items_of_their_kind(request: PreprocessedRequest)
    ensures
        match request.multi_modal_data {
            Some(mm) => {
                &&& mm@.contains_key("image_url"@) ==> request.images() == mm@["image_url"@]
                &&& !mm@.contains_key("image_url"@) ==> request.images().len() == 0
            },
            None => request.images().len() == 0,
        },
{
}

/// A routing sequence is expanded exactly if it is attached and not empty, and it is used whole.
pub proof fn law_expanded_sequence_is_the_attached_one(request: PreprocessedRequest)
    ensures
        match request.mm_routing_info {
            Some(mm) => {
                &&& mm.routing_token_ids@.len() > 0 ==> request.expanded_sequence() == Some(
                    mm.routing_token_ids@,
                )
                &&& mm.routing_token_ids@.len() == 0 ==> request.expanded_sequence() is None
            },
            None => request.expanded_sequence() is None,
        },
{
}

} // verus!
