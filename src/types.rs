use vstd::prelude::*;

verus! {

/// Why an operation on the store was refused.
#[derive(Clone, Copy, Debug, PartialEq, Eq, Structural)]
pub enum AssetError {
    NotFound,
    AlreadyExists,
    HashMismatch,
    StaleToken,
    Unauthorized,
    Expired,
}

impl AssetError {
    /// A human-readable description of the failure.
    pub fn message(&self) -> (r: String)
        ensures
            r@ == match self {
                AssetError::NotFound => "not found"@,
                AssetError::AlreadyExists => "asset already exists with another content type"@,
                AssetError::HashMismatch => "sha256 mismatch"@,
                AssetError::StaleToken => "streaming token is stale"@,
                AssetError::Unauthorized => "caller is not authorized"@,
                AssetError::Expired => "batch expired"@,
            },
    {
        match self {
            AssetError::NotFound => "not found".to_owned(),
            AssetError::AlreadyExists => "asset already exists with another content type".to_owned(),
            AssetError::HashMismatch => "sha256 mismatch".to_owned(),
            AssetError::StaleToken => "streaming token is stale".to_owned(),
            AssetError::Unauthorized => "caller is not authorized".to_owned(),
            AssetError::Expired => "batch expired".to_owned(),
        }
    }
}

/// One content encoding of an asset: its bytes kept as the uploaded chunks.
pub struct AssetEncoding {
    pub content_encoding: String,
    pub content_chunks: Vec<Vec<u8>>,
    pub total_length: usize,
    pub sha256: Vec<u8>,
    pub modified: u64,
}

pub struct EncodingView {
    pub name: Seq<char>,
    pub chunks: Seq<Seq<u8>>,
    pub total_length: nat,
    pub sha256: Seq<u8>,
    pub modified: u64,
}

impl View for AssetEncoding {
    type V = EncodingView;

    open spec fn view(&self) -> EncodingView {
        EncodingView {
            name: self.content_encoding@,
            chunks: self.content_chunks.deep_view(),
            total_length: self.total_length as nat,
            sha256: self.sha256@,
            modified: self.modified,
        }
    }
}

/// An asset: a content type and its encodings, looked up by key.
pub struct Asset {
    pub key: String,
    pub content_type: String,
    /// Served for a request path that ends in `/` and starts this key.
    pub is_default_doc: bool,
    pub encodings: Vec<AssetEncoding>,
}

pub struct AssetView {
    pub key: Seq<char>,
    pub content_type: Seq<char>,
    pub is_default_doc: bool,
    pub encodings: Seq<EncodingView>,
}

impl View for Asset {
    type V = AssetView;

    open spec fn view(&self) -> AssetView {
        AssetView {
            key: self.key@,
            content_type: self.content_type@,
            is_default_doc: self.is_default_doc,
            encodings: self.encodings@.map_values(|e: AssetEncoding| e@),
        }
    }
}

/// An upload session; its chunks may be used until `expires_at`.
#[derive(Clone, Copy, Debug, PartialEq, Eq, Structural)]
pub struct Batch {
    pub id: u64,
    pub expires_at: u64,
}

/// An uploaded piece of content, owned by one batch.
pub struct Chunk {
    pub id: u64,
    pub batch_id: u64,
    pub content: Vec<u8>,
}

pub struct ChunkView {
    pub id: u64,
    pub batch_id: u64,
    pub content: Seq<u8>,
}

impl View for Chunk {
    type V = ChunkView;

    open spec fn view(&self) -> ChunkView {
        ChunkView { id: self.id, batch_id: self.batch_id, content: self.content@ }
    }
}

pub struct CreateAssetArguments {
    pub key: String,
    pub content_type: String,
    pub default_doc: bool,
}

pub struct SetAssetContentArguments {
    pub key: String,
    pub content_encoding: String,
    pub chunk_ids: Vec<u64>,
    pub sha256: Option<Vec<u8>>,
}

pub struct UnsetAssetContentArguments {
    pub key: String,
    pub content_encoding: String,
}

pub struct DeleteAssetArguments {
    pub key: String,
}

/// One step of a batch commit.
pub enum BatchOperation {
    CreateAsset(CreateAssetArguments),
    SetAssetContent(SetAssetContentArguments),
    UnsetAssetContent(UnsetAssetContentArguments),
    DeleteAsset(DeleteAssetArguments),
}

pub enum OpView {
    CreateAsset { key: Seq<char>, content_type: Seq<char>, default_doc: bool },
    SetContent { key: Seq<char>, encoding: Seq<char>, chunk_ids: Seq<u64>, sha256: Option<Seq<u8>> },
    Unset { key: Seq<char>, encoding: Seq<char> },
    Delete { key: Seq<char> },
}

pub open spec fn opt_bytes(o: Option<Vec<u8>>) -> Option<Seq<u8>> {
    match o {
        Some(v) => Some(v@),
        None => None,
    }
}

impl View for BatchOperation {
    type V = OpView;

    open spec fn view(&self) -> OpView {
        match self {
            BatchOperation::CreateAsset(a) => OpView::CreateAsset {
                key: a.key@,
                content_type: a.content_type@,
                default_doc: a.default_doc,
            },
            BatchOperation::SetAssetContent(a) => OpView::SetContent {
                key: a.key@,
                encoding: a.content_encoding@,
                chunk_ids: a.chunk_ids@,
                sha256: opt_bytes(a.sha256),
            },
            BatchOperation::UnsetAssetContent(a) => OpView::Unset {
                key: a.key@,
                encoding: a.content_encoding@,
            },
            BatchOperation::DeleteAsset(a) => OpView::Delete { key: a.key@ },
        }
    }
}

/// Arguments of a single-request upload of one encoding.
pub struct StoreArg {
    pub key: String,
    pub content_type: String,
    pub content_encoding: String,
    pub content: Vec<u8>,
    pub sha256: Option<Vec<u8>>,
}

/// Reply of `get`: metadata of the chosen encoding and its first chunk.
pub struct EncodedAsset {
    pub content: Vec<u8>,
    pub content_type: String,
    pub content_encoding: String,
    pub total_length: usize,
    pub sha256: Option<Vec<u8>>,
}

pub struct AssetEncodingDetails {
    pub content_encoding: String,
    pub sha256: Option<Vec<u8>>,
    pub length: usize,
    pub modified: u64,
}

pub struct AssetDetails {
    pub key: String,
    pub content_type: String,
    pub is_default_doc: bool,
    pub encodings: Vec<AssetEncodingDetails>,
}

} // verus!
