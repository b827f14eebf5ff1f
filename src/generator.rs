use std::sync::mpsc::{channel, Receiver, Sender};
use std::sync::Arc;
use vstd::prelude::*;
use crate::pool::{Pool, PoolView};

verus! {

/// The settings of a generator: the number of slots that it starts with and
/// the number that it mints at once when none is free.
pub struct Config {
    pub default_size: nat,
    pub chunk_size: nat,
}

#[verifier::external_type_specification]
#[verifier::external_body]
#[verifier::reject_recursive_types(T)]
pub struct ExSender<T>(Sender<T>);

#[verifier::external_type_specification]
#[verifier::external_body]
#[verifier::reject_recursive_types(T)]
pub struct ExReceiver<T>(Receiver<T>);

/// Relies on `std::sync::mpsc::channel`: a new, empty channel.
#[verifier::external_body]
fn new_channel() -> (r: (Sender<usize>, Receiver<usize>)) {
    channel()
}

/// Relies on `Sender::clone`: another sender into the same channel.
#[verifier::external_body]
fn copy_sender(tx: &Sender<usize>) -> (r: Sender<usize>) {
    tx.clone()
}

/// Relies on `Sender::send`, which queues the value without blocking and
/// fails, without panicking, only when the receiver is gone. Being outside
/// code, it opens no invariant of this crate.
#[verifier::external_body]
fn send_slot(tx: &Sender<usize>, value: usize) -> (r: bool)
    opens_invariants none
    no_unwind
{
    tx.send(value).is_ok()
}

/// Relies on `Receiver::try_recv`: the next queued value, or `None` when
/// nothing is queued now. Any thread may have queued anything.
#[verifier::external_body]
fn next_returned(rx: &Receiver<usize>) -> (r: Option<usize>) {
    rx.try_recv().ok()
}

/// One handed-out slot, and the channel that takes it back to its generator.
struct Slot {
    value: usize,
    home: Sender<usize>,
}

impl Drop for Slot {
    /// The last handle of a slot is gone: the slot is sent back to its
    /// generator. Where the generator is gone there is no pool to return to.
    fn drop(&mut self)
        opens_invariants none
        no_unwind
    {
        send_slot(&self.home, self.value);
    }
}

/// A handle on one slot of a generator's pool. Clones share the slot; it goes
/// back to the pool when the last of them is dropped. Handles are equal when
/// they denote the same slot.
pub struct Id {
    slot: Arc<Slot>,
}

impl View for Id {
    type V = usize;

    closed spec fn view(&self) -> usize {
        self.slot.value
    }
}

impl Clone for Id {
    /// Another handle on the same slot.
    fn clone(&self) -> (r: Id)
        ensures
            r@ == self@,
    {
        Id { slot: Arc::clone(&self.slot) }
    }
}

/// The decimal digits of `n`, most significant first, without leading zeros.
pub open spec fn decimal(n: nat) -> Seq<char>
    decreases n,
{
    let digit = seq!['0', '1', '2', '3', '4', '5', '6', '7', '8', '9'][(n % 10) as int];
    if n < 10 {
        seq![digit]
    } else {
        decimal(n / 10).push(digit)
    }
}

/// The text form of a handle on slot `value`.
pub open spec fn id_text(value: nat) -> Seq<char> {
    seq!['I', 'd', '('] + decimal(value) + seq![')']
}

/// Relies on `format!` with `{}` on strings and on a `usize`: it writes the
/// strings as they are and the integer in decimal, without sign or leading
/// zeros.
#[verifier::external_body]
fn enclose_number(before: &str, value: usize, after: &str) -> (r: String)
    ensures
        r@ == before@ + decimal(value as nat) + after@,
{
    format!("{}{}{}", before, value, after)
}

impl Id {
    /// The slot that this handle denotes.
    pub fn value(&self) -> (r: usize)
        ensures
            r == self@,
    {
        self.slot.value
    }

    /// The handle as text, `Id(<slot>)`: it shows the slot alone.
    pub fn to_debug_string(&self) -> (r: String)
        ensures
            r@ == id_text(self@ as nat),
    {
        proof {
            reveal_strlit("Id(");
            reveal_strlit(")");
        }
        enclose_number("Id(", self.slot.value, ")")
    }
}

impl PartialEq for Id {
    fn eq(&self, other: &Id) -> (r: bool) {
        self.slot.value == other.slot.value
    }
}

impl vstd::std_specs::cmp::PartialEqSpecImpl for Id {
    open spec fn obeys_eq_spec() -> bool {
        true
    }

    open spec fn eq_spec(&self, other: &Id) -> bool {
        self@ == other@
    }
}

impl Eq for Id {
}

/// Relies on `usize`'s `Hash`: it feeds the integer to the hasher. Nothing
/// is stated of the hasher's state afterwards.
pub assume_specification<H: core::hash::Hasher>[ <usize as core::hash::Hash>::hash::<H> ](
    v: &usize,
    state: &mut H,
);

impl core::hash::Hash for Id {
    fn hash<H: core::hash::Hasher>(&self, state: &mut H) {
        self.slot.value.hash(state);
    }
}

/// What a run of handing out reports: the slot, if one was handed out.
pub open spec fn slot_of(r: Option<Id>) -> Option<usize> {
    match r {
        Some(id) => Some(id@),
        None => None,
    }
}

/// A source of recyclable identifiers. It owns its pool; each handle holds a
/// sender on which its slot comes back once the last clone is dropped, and
/// the generator takes in what came back before it hands out a slot.
pub struct Generator {
    pool: Pool,
    inbox: Receiver<usize>,
    sender: Sender<usize>,
}

impl View for Generator {
    type V = PoolView;

    /// The pool as the generator last saw it: slots sent back since are not
    /// in it yet.
    closed spec fn view(&self) -> PoolView {
        self.pool@
    }
}

impl Generator {
    /// The pool that the generator owns is well formed.
    pub closed spec fn wf(&self) -> bool {
        self.pool.wf()
    }

    /// Takes in the slots that came back, as `give_back` does, in the order
    /// that they came; `returned` is that order. At most as many are taken in
    /// as slots were minted: the rest wait for the next call.
    fn take_in_returns(&mut self) -> (returned: Ghost<Seq<usize>>)
        requires
            old(self).wf(),
        ensures
            final(self).wf(),
            final(self)@ == old(self)@.give_back_all(returned@),
    {
        let ghost start = self.pool@;
        let ghost mut returned: Seq<usize> = Seq::empty();
        let mut budget: usize = self.pool.allocated();
        while budget > 0
            invariant
                self.wf(),
                self.pool@ == start.give_back_all(returned),
            decreases budget,
        {
            match next_returned(&self.inbox) {
                Some(v) => {
                    self.pool.give_back(v);
                    proof {
                        assert(returned.push(v).drop_last() =~= returned);
                        returned = returned.push(v);
                    }
                    budget = budget - 1;
                },
                None => {
                    break;
                },
            }
        }
        Ghost(returned)
    }

    /// Hands out a slot. First the slots whose last handle was dropped since
    /// the last call are taken back, most recent on top; then the top of the
    /// free stack is handed out or, when none is free, the last of
    /// `chunk_size` newly minted slots, the others staged as free. `None`
    /// comes only where growth would pass the largest `usize`. With nothing
    /// sent back (`returned` empty), this is exactly `PoolView::take`.
    pub fn generate(&mut self) -> (r: Option<Id>)
        requires
            old(self).wf(),
        ensures
            final(self).wf(),
            exists|returned: Seq<usize>| {
                let (after, taken) = #[trigger] old(self)@.give_back_all(returned).take();
                final(self)@ == after && slot_of(r) == taken
            },
    {
        let Ghost(returned) = self.take_in_returns();
        let taken = self.pool.take();
        assert(old(self)@.give_back_all(returned).take() == (self@, taken));
        match taken {
            Some(value) => {
                let slot = Slot { value, home: copy_sender(&self.sender) };
                Some(Id { slot: Arc::new(slot) })
            },
            None => None,
        }
    }

    /// The growth step.
    pub fn chunk_size(&self) -> (r: usize)
        ensures
            r == self@.chunk_size,
    {
        self.pool.chunk_size()
    }

    /// Number of slots minted so far.
    pub fn allocated(&self) -> (r: usize)
        ensures
            r == self@.allocated,
    {
        self.pool.allocated()
    }
}

/// Slots that a generator starts with unless told otherwise.
pub const DEFAULT_SIZE: usize = 128;

/// Slots minted at once unless told otherwise.
pub const DEFAULT_CHUNK_SIZE: usize = 128;

/// Why a configuration was refused.
#[derive(Debug, Clone, Copy, PartialEq, Eq, Structural)]
pub enum ConfigError {
    /// A growth step of zero slots could never mint a new one.
    ZeroChunkSize,
}

/// Collects the settings of a generator before any pool exists.
pub struct GeneratorBuilder {
    chunk_size: usize,
    default_size: usize,
}

impl View for GeneratorBuilder {
    type V = Config;

    closed spec fn view(&self) -> Config {
        Config { default_size: self.default_size as nat, chunk_size: self.chunk_size as nat }
    }
}

impl Default for GeneratorBuilder {
    fn default() -> (r: GeneratorBuilder)
        ensures
            r@ == (Config { default_size: DEFAULT_SIZE as nat, chunk_size: DEFAULT_CHUNK_SIZE as nat }),
    {
        GeneratorBuilder { chunk_size: DEFAULT_CHUNK_SIZE, default_size: DEFAULT_SIZE }
    }
}

impl GeneratorBuilder {
    /// A builder always holds a growth step of at least one slot.
    #[verifier::type_invariant]
    spec fn valid(self) -> bool {
        self.chunk_size > 0
    }

    /// Default settings: 128 slots to start with, 128 minted at a time.
    pub fn new() -> (r: GeneratorBuilder)
        ensures
            r@ == (Config { default_size: DEFAULT_SIZE as nat, chunk_size: DEFAULT_CHUNK_SIZE as nat }),
    {
        GeneratorBuilder { chunk_size: DEFAULT_CHUNK_SIZE, default_size: DEFAULT_SIZE }
    }

    /// Sets the growth step; zero is refused.
    pub fn with_chunk_size(self, chunk_size: usize) -> (r: Result<GeneratorBuilder, ConfigError>)
        ensures
            chunk_size == 0 ==> r == Err::<GeneratorBuilder, ConfigError>(ConfigError::ZeroChunkSize),
            chunk_size > 0 ==> (r matches Ok(b) && b@ == (Config { chunk_size: chunk_size as nat, ..self@ })),
    {
        if chunk_size == 0 {
            return Err(ConfigError::ZeroChunkSize);
        }
        Ok(GeneratorBuilder { chunk_size, default_size: self.default_size })
    }

    /// Sets the number of slots that the pool starts with.
    pub fn with_size(self, size: usize) -> (r: GeneratorBuilder)
        ensures
            r@ == (Config { default_size: size as nat, ..self@ }),
    {
        proof {
            use_type_invariant(&self);
        }
        GeneratorBuilder { chunk_size: self.chunk_size, default_size: size }
    }

    /// A generator whose pool holds slots `0 .. default_size`, all free.
    pub fn build(self) -> (r: Generator)
        ensures
            r.wf(),
            r@ == PoolView::initial(self@.default_size, self@.chunk_size),
    {
        proof {
            use_type_invariant(&self);
        }
        let pool = Pool::new(self.default_size, self.chunk_size);
        let (sender, inbox) = new_channel();
        Generator { pool, inbox, sender }
    }
}

} // verus!
