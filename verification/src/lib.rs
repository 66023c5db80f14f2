//! An interaction-net engine on Delta-nets: agents in a generation-tagged
//! arena, active pairs kept in leftmost-outermost order, the core and
//! canonicalization rules, a canonical byte codec for content addressing, a
//! three-pass elaborator, and the small wire and lock-file formats around them.
use vstd::prelude::*;

pub mod port;
pub mod slot;
pub mod error;
pub mod lopath;
pub mod lopath_order;
pub mod arena;
pub mod class;
pub mod frontier;
pub mod net;
pub mod reduce;
pub mod blob_format;
pub mod canonical_hash;
pub mod funeq;
pub mod blob;
pub mod ast;
pub mod text;
pub mod elab;
pub mod effect;
pub mod wire;
pub mod dist;
pub mod lock;
pub mod flake;
pub mod proto;
pub mod church;

pub use port::{PortId, PortKind};
pub use lopath::LOPath;
pub use error::{DnxError, LinError};
pub use class::{
    Canonical, DeltaA, DeltaI, DeltaK, DeltaL, IsEraNet, IsRepNet, NetClassMarker, NetState, Proper,
    Sealed,
};
pub use net::{AgentPorts, Net, SlotView};
pub use reduce::{CRules, ReduceStats, finalize_canonical, normalize};
pub use reduce::gpu::normalize_gpu_batched;
pub use reduce::whnf::{NormalizeConfig, ValueHead, classify_head, force_whnf, head_at, take_spine_redex};
pub use canonical_hash::{ArtifactLocal, Blake3Hash, Interner, canonical_hash};
pub use blob::{from_blob, to_blob};
pub use funeq::fn_eq;
pub use reduce::parallel::{
    GpuOutput, WorkerOutput, commit_gpu_output, commit_output, finish_parallel, prepare_batch,
    worker_fire,
};
pub use elab::alpha::alpha_rename;
pub use elab::pass0::pass0;
pub use elab::pass1::{Pass1Result, pass1};
pub use elab::pass2::{LeafElab, NoPrims, elaborate, elaborate_with};
pub use effect::{ArtifactId, EffectRow, HandlerError, missing_handler};
pub use wire::{CacheError, MAX_FRAME, Msg, check_held, decode_body, encode_body, encode_frame, frame_len};
pub use dist::{ResultCache, held_keys, hex, normalize_cached, parse_hash, verify_blob};
pub use lock::{FlakeError, LockEntry, LockFile, LockStatus};
pub use flake::{
    Flake, FlakeInput, FlakeInputs, FlakeOutputs, FrontFault, StrPart, SurfaceExpr, escape_nix_string,
    is_local_path, is_valid_attr_segment, lock_status_of, quoted_selector,
};
pub use proto::{
    DaemonError, DaemonErrorKind, DaemonStatus, PROTO_VERSION, Request, Response, built_reply, cache_lookup_reply,
    decode_request, decode_response, encode_request, encode_response, read_frame, shutdown_reply, status_of_reply,
    store_query_reply, write_frame,
};
pub use church::{emit_church_bool, try_church_bool};

verus! {

} // verus!
