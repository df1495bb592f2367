use crate::actor::ActorContext;
use crate::ocapn::syrup::{clone_value, lemma_models_take, models, Syrup, SyrupValue};
use crate::ocapn::types::OCapNMessage;
use crate::text::text_eq;
use vstd::prelude::*;

verus! {

/// An OCapN message to send, with the peer it goes to.
pub type OCapNSendEntry = (String, OCapNMessage);

/// The collected net-publish channels of the current context,
/// leaving none and the rest of the context as it was; nothing when no
/// context is set.
pub fn take_net_publishes(ctx: Option<&mut ActorContext>) -> (r: Vec<String>)
    ensures
        match ctx {
            Some(c) => r@ == c.net_publishes@ && final(c).net_publishes@.len() == 0
                && *final(c) == (ActorContext { net_publishes: final(c).net_publishes, ..*c }),
            None => r@.len() == 0,
        },
{
    match ctx {
        Some(c) => {
            let mut taken: Vec<String> = Vec::new();
            std::mem::swap(&mut taken, &mut c.net_publishes);
            taken
        },
        None => Vec::new(),
    }
}


/// The tick interval the current context asked for, leaving none
/// and the rest of the context as it was; nothing when no context is set.
pub fn take_tick_interval(ctx: Option<&mut ActorContext>) -> (r: Option<u64>)
    ensures
        match ctx {
            Some(c) => r == c.tick_interval_ms && final(c).tick_interval_ms is None
                && *final(c) == (ActorContext { tick_interval_ms: final(c).tick_interval_ms, ..*c }),
            None => r is None,
        },
{
    match ctx {
        Some(c) => c.tick_interval_ms.take(),
        None => None,
    }
}

/// The OCapN sends collected in the current context, leaving none
/// and the rest of the context as it was; nothing when no context is set.
pub fn take_ocapn_sends(ctx: Option<&mut ActorContext>) -> (r: Vec<OCapNSendEntry>)
    ensures
        match ctx {
            Some(c) => r@ == c.ocapn_sends@ && final(c).ocapn_sends@.len() == 0
                && *final(c) == (ActorContext { ocapn_sends: final(c).ocapn_sends, ..*c }),
            None => r@.len() == 0,
        },
{
    match ctx {
        Some(c) => {
            let mut taken: Vec<OCapNSendEntry> = Vec::new();
            std::mem::swap(&mut taken, &mut c.ocapn_sends);
            taken
        },
        None => Vec::new(),
    }
}

/// The recompute requests collected in the current context,
/// leaving none and the rest of the context as it was; nothing when no
/// context is set.
pub fn take_recompute_requests(ctx: Option<&mut ActorContext>) -> (r: Vec<u64>)
    ensures
        match ctx {
            Some(c) => r@ == c.recompute_requests@ && final(c).recompute_requests@.len() == 0
                && *final(c) == (ActorContext { recompute_requests: final(c).recompute_requests, ..*c }),
            None => r@.len() == 0,
        },
{
    match ctx {
        Some(c) => {
            let mut taken: Vec<u64> = Vec::new();
            std::mem::swap(&mut taken, &mut c.recompute_requests);
            taken
        },
        None => Vec::new(),
    }
}

/// The window title the current context asked for, leaving none
/// and the rest of the context as it was; nothing when no context is set.
pub fn take_window_title(ctx: Option<&mut ActorContext>) -> (r: Option<String>)
    ensures
        match ctx {
            Some(c) => r == c.window_title && final(c).window_title is None
                && *final(c) == (ActorContext { window_title: final(c).window_title, ..*c }),
            None => r is None,
        },
{
    match ctx {
        Some(c) => c.window_title.take(),
        None => None,
    }
}

/// Whether the current context registered a message handler, clearing the
/// flag and leaving the rest of the context as it was; false when no context
/// is set.
pub fn take_has_message_handler(ctx: Option<&mut ActorContext>) -> (r: bool)
    ensures
        match ctx {
            Some(c) => r == c.has_message_handler && !final(c).has_message_handler
                && *final(c) == (ActorContext { has_message_handler: final(c).has_message_handler, ..*c }),
            None => !r,
        },
{
    match ctx {
        Some(c) => {
            let val = c.has_message_handler;
            c.has_message_handler = false;
            val
        },
        None => false,
    }
}
/// What a delivery to an exported slot does: `set` with a value stores it;
/// anything else reads the slot.
pub open spec fn slot_store(args: Seq<Syrup>) -> Option<Syrup> {
    if args.len() >= 2 && args[0] == Syrup::Symbol("set"@) {
        Some(args[1])
    } else {
        None
    }
}

/// The value a delivery to an exported slot stores, where it is a `set`;
/// none where it reads the slot.
pub fn slot_update(args: &[SyrupValue]) -> (r: Option<SyrupValue>)
    ensures
        match r {
            Some(v) => slot_store(models(args@)) == Some(v@),
            None => slot_store(models(args@)) is None,
        },
{
    proof {
        lemma_models_take(args@, 0);
    }
    if args.len() >= 2 {
        match &args[0] {
            SyrupValue::Symbol(m) => {
                proof {
                    reveal_strlit("set");
                }
                if text_eq(m.as_str(), "set") {
                    return Some(clone_value(&args[1]));
                }
            },
            _ => {},
        }
    }
    None
}

} // verus!
