//! Sources that hand out values held in memory.

use vstd::prelude::*;
use crate::data_sources::{DataSource, SourceBuilder};
use crate::errors::ConnectorAgentError;
use crate::types::{CellValue, DataOrder, Slot};

verus! {

/// A builder of [`OptU64TestSource`]s, one for each list of values that it
/// was made with.
pub struct OptU64SourceBuilder {
    fake_values: Vec<Vec<Option<u64>>>,
    ncols: usize,
}

/// A row-major source of nullable unsigned integers.
pub struct OptU64TestSource {
    counter: usize,
    vals: Vec<Option<u64>>,
    ncols: usize,
    log: Ghost<Seq<CellValue>>,
    failed: Ghost<Option<ConnectorAgentError>>,
}

/// A builder of [`U64TestSource`]s, one for each list of values that it was
/// made with.
pub struct U64SourceBuilder {
    fake_values: Vec<Vec<u64>>,
    ncols: usize,
}

/// A row-major source of unsigned integers, which it also hands out as
/// nullable integers that are present.
pub struct U64TestSource {
    counter: usize,
    vals: Vec<u64>,
    ncols: usize,
    log: Ghost<Seq<CellValue>>,
    failed: Ghost<Option<ConnectorAgentError>>,
}

/// The error of a source that is asked for a type that it does not have:
/// a producer error that carries the message, letter for letter.
fn unsupported(message: &str) -> (res: ConnectorAgentError)
    ensures
        res is ProducerError,
        res->ProducerError_0@ == message@,
{
    ConnectorAgentError::ProducerError(message.to_owned())
}

/// The error of a source that has handed out all its values: a producer
/// error that says so.
fn exhausted() -> (res: ConnectorAgentError)
    ensures
        res is ProducerError,
        res->ProducerError_0@ == "no value is left"@,
{
    ConnectorAgentError::ProducerError("no value is left".to_owned())
}

impl OptU64SourceBuilder {
    /// The lists of values still to be built into sources, in order.
    pub closed spec fn pending(&self) -> Seq<Seq<Option<u64>>> {
        Seq::new(self.fake_values@.len(), |k: int| self.fake_values@[k]@)
    }

    /// The number of columns that every source reads its values in.
    pub closed spec fn width(&self) -> nat {
        self.ncols as nat
    }

    pub fn new(fake_values: Vec<Vec<Option<u64>>>, ncols: usize) -> (builder: Self)
        ensures
            builder.pending() == Seq::new(fake_values@.len(), |k: int| fake_values@[k]@),
            builder.width() == ncols,
    {
        OptU64SourceBuilder { fake_values, ncols }
    }
}

impl OptU64SourceBuilder {
    /// The sources yet to be handed out are fresh sources of the lists of
    /// values that are left, one for each list and in their order.
    pub proof fn lemma_to_build(&self)
        ensures
            self.to_build().len() == self.pending().len(),
            forall|k: int|
                0 <= k < self.pending().len() ==> {
                    let source = #[trigger] self.to_build()[k];
                    &&& source.wf()
                    &&& source.values() == self.pending()[k]
                    &&& source.width() == self.width()
                    &&& source.position() == 0
                    &&& source.emitted() == Seq::<CellValue>::empty()
                },
    {
        assert forall|k: int| 0 <= k < self.pending().len() implies (#[trigger] self.to_build()[k]).wf() by {
            let source = self.to_build()[k];
            assert(source.log@ =~= Seq::new(0, |i: int| CellValue::OptU64(source.vals@[i])));
        }
    }
}

impl SourceBuilder for OptU64SourceBuilder {
    type Source = OptU64TestSource;

    closed spec fn to_build(&self) -> Seq<OptU64TestSource> {
        Seq::new(self.fake_values@.len(), |k: int| OptU64TestSource::fresh(self.fake_values@[k], self.ncols))
    }

    open spec fn declared_orders(&self) -> Seq<DataOrder> {
        seq![DataOrder::RowMajor]
    }

    fn data_orders(&self) -> (orders: Vec<DataOrder>) {
        let mut orders: Vec<DataOrder> = Vec::new();
        orders.push(DataOrder::RowMajor);
        assert(orders@ =~= seq![DataOrder::RowMajor]);
        orders
    }

    /// Takes row-major order and no other.
    fn set_data_order(&mut self, order: DataOrder) -> (res: Result<(), ConnectorAgentError>)
        ensures
            res is Ok <==> order == DataOrder::RowMajor,
            res matches Err(e) ==> e == ConnectorAgentError::UnsupportedDataOrder,
            final(self).pending() == old(self).pending(),
            final(self).width() == old(self).width(),
    {
        proof {
            let declared = seq![DataOrder::RowMajor];
            assert(declared[0] == DataOrder::RowMajor);
            assert(declared.contains(DataOrder::RowMajor));
            assert(!declared.contains(DataOrder::ColumnMajor));
        }
        match order {
            DataOrder::RowMajor => Ok(()),
            DataOrder::ColumnMajor => Err(ConnectorAgentError::UnsupportedDataOrder),
        }
    }

    /// A fresh source of the first list of values that is left.
    fn build(&mut self) -> (source: Option<OptU64TestSource>)
        ensures
            final(self).width() == old(self).width(),
            match source {
                Some(source) => {
                    &&& old(self).pending().len() > 0
                    &&& source.wf()
                    &&& source.values() == old(self).pending()[0]
                    &&& source.width() == old(self).width()
                    &&& source.position() == 0
                    &&& final(self).pending() == old(self).pending().drop_first()
                },
                None => old(self).pending().len() == 0 && final(self).pending() == old(self).pending(),
            },
    {
        if self.fake_values.len() == 0 {
            return None;
        }
        let vals = self.fake_values.remove(0);
        assert(self.pending() =~= old(self).pending().drop_first());
        Some(OptU64TestSource::new(vals, self.ncols))
    }
}

impl OptU64TestSource {
    /// The values that the source was made with.
    pub closed spec fn values(&self) -> Seq<Option<u64>> {
        self.vals@
    }

    /// The number of values handed out so far.
    pub closed spec fn position(&self) -> nat {
        self.counter as nat
    }

    /// The number of columns that the values are read in.
    pub closed spec fn width(&self) -> nat {
        self.ncols as nat
    }

    /// The cells handed out are the values up to the position.
    pub closed spec fn wf(&self) -> bool {
        &&& self.counter <= self.vals@.len()
        &&& self.log@ == Seq::new(self.counter as nat, |i: int| CellValue::OptU64(self.vals@[i]))
    }

    /// The source that [`Self::new`] makes of these values.
    pub closed spec fn fresh(vals: Vec<Option<u64>>, ncols: usize) -> Self {
        OptU64TestSource { counter: 0, vals, ncols, log: Ghost(Seq::empty()), failed: Ghost(None) }
    }

    pub fn new(vals: Vec<Option<u64>>, ncols: usize) -> (source: Self)
        ensures
            source == Self::fresh(vals, ncols),
            source.wf(),
            source.values() == vals@,
            source.width() == ncols,
            source.position() == 0,
    {
        let source = OptU64TestSource { counter: 0, vals, ncols, log: Ghost(Seq::empty()), failed: Ghost(None) };
        assert(source.log@ =~= Seq::new(0, |i: int| CellValue::OptU64(source.vals@[i])));
        source
    }

    /// The number of values handed out so far.
    pub fn produced(&self) -> (n: usize)
        ensures
            n == self.position(),
    {
        self.counter
    }

    /// The cells handed out so far are the first values, in their order.
    pub proof fn lemma_emitted(&self)
        requires
            self.wf(),
        ensures
            self.position() <= self.values().len(),
            self.emitted().len() == self.position(),
            forall|i: int|
                0 <= i < self.position() ==> #[trigger] self.emitted()[i] == CellValue::OptU64(
                    self.values()[i],
                ),
    {
    }
}

impl DataSource for OptU64TestSource {
    open spec fn continues(&self, earlier: &Self) -> bool {
        &&& self.values() == earlier.values()
        &&& self.width() == earlier.width()
        &&& earlier.position() <= self.position()
        &&& earlier.emitted().is_prefix_of(self.emitted())
        &&& earlier.wf() ==> self.wf()
    }

    proof fn lemma_continues_itself(&self) {
    }

    proof fn lemma_continues_onward(&self, middle: &Self, earlier: &Self) {
    }

    proof fn lemma_continues_keeps(&self, earlier: &Self) {
    }

    closed spec fn emitted(&self) -> Seq<CellValue> {
        self.log@
    }

    closed spec fn failure(&self) -> Option<ConnectorAgentError> {
        self.failed@
    }

    open spec fn row_count(&self) -> nat {
        if self.width() == 0 {
            0
        } else {
            self.values().len() / self.width()
        }
    }

    /// The number of whole rows among the values; none when there is no
    /// column.
    fn nrows(&self) -> (n: usize) {
        if self.ncols == 0 {
            0
        } else {
            self.vals.len() / self.ncols
        }
    }

    fn produce_f64(&mut self) -> (produced: Result<u64, ConnectorAgentError>)
        ensures
            produced is Err,
            produced->Err_0 is ProducerError,
            produced->Err_0->ProducerError_0@ == "Only Option<u64> is supported"@,
            old(self).wf() ==> final(self).wf(),
            final(self).values() == old(self).values(),
            final(self).width() == old(self).width(),
            final(self).position() == old(self).position(),
    {
        let e = unsupported("Only Option<u64> is supported");
        self.failed = Ghost(Some(e));
        Err(e)
    }

    fn produce_u64(&mut self) -> (produced: Result<u64, ConnectorAgentError>)
        ensures
            produced is Err,
            produced->Err_0 is ProducerError,
            produced->Err_0->ProducerError_0@ == "Only Option<u64> is supported"@,
            old(self).wf() ==> final(self).wf(),
            final(self).values() == old(self).values(),
            final(self).width() == old(self).width(),
            final(self).position() == old(self).position(),
    {
        let e = unsupported("Only Option<u64> is supported");
        self.failed = Ghost(Some(e));
        Err(e)
    }

    fn produce_bool(&mut self) -> (produced: Result<bool, ConnectorAgentError>)
        ensures
            produced is Err,
            produced->Err_0 is ProducerError,
            produced->Err_0->ProducerError_0@ == "Only Option<u64> is supported"@,
            old(self).wf() ==> final(self).wf(),
            final(self).values() == old(self).values(),
            final(self).width() == old(self).width(),
            final(self).position() == old(self).position(),
    {
        let e = unsupported("Only Option<u64> is supported");
        self.failed = Ghost(Some(e));
        Err(e)
    }

    /// The next value, while there is one.
    fn produce_opt_u64(&mut self) -> (produced: Result<Option<u64>, ConnectorAgentError>)
        ensures
            old(self).wf() ==> final(self).wf(),
            final(self).values() == old(self).values(),
            final(self).width() == old(self).width(),
            match produced {
                Ok(value) => {
                    &&& old(self).position() < old(self).values().len()
                    &&& value == old(self).values()[old(self).position() as int]
                    &&& final(self).position() == old(self).position() + 1
                },
                Err(e) => {
                    &&& old(self).position() >= old(self).values().len()
                    &&& e is ProducerError
                    &&& e->ProducerError_0@ == "no value is left"@
                    &&& final(self).position() == old(self).position()
                },
            },
    {
        if self.counter < self.vals.len() {
            let value = self.vals[self.counter];
            self.counter += 1;
            self.log = Ghost(self.log@.push(CellValue::OptU64(value)));
            proof {
                if old(self).wf() {
                    assert(self.log@ =~= Seq::new(
                        self.counter as nat,
                        |i: int| CellValue::OptU64(self.vals@[i]),
                    ));
                }
            }
            self.failed = Ghost(None);
            Ok(value)
        } else {
            let e = exhausted();
            self.failed = Ghost(Some(e));
            Err(e)
        }
    }
}

impl U64SourceBuilder {
    /// The lists of values still to be built into sources, in order.
    pub closed spec fn pending(&self) -> Seq<Seq<u64>> {
        Seq::new(self.fake_values@.len(), |k: int| self.fake_values@[k]@)
    }

    /// The number of columns that every source reads its values in.
    pub closed spec fn width(&self) -> nat {
        self.ncols as nat
    }

    pub fn new(fake_values: Vec<Vec<u64>>, ncols: usize) -> (builder: Self)
        ensures
            builder.pending() == Seq::new(fake_values@.len(), |k: int| fake_values@[k]@),
            builder.width() == ncols,
    {
        U64SourceBuilder { fake_values, ncols }
    }
}

impl U64SourceBuilder {
    /// The sources yet to be handed out are fresh sources of the lists of
    /// values that are left, one for each list and in their order.
    pub proof fn lemma_to_build(&self)
        ensures
            self.to_build().len() == self.pending().len(),
            forall|k: int|
                0 <= k < self.pending().len() ==> {
                    let source = #[trigger] self.to_build()[k];
                    &&& source.wf()
                    &&& source.values() == self.pending()[k]
                    &&& source.width() == self.width()
                    &&& source.position() == 0
                    &&& source.emitted() == Seq::<CellValue>::empty()
                },
    {
    }
}

impl SourceBuilder for U64SourceBuilder {
    type Source = U64TestSource;

    closed spec fn to_build(&self) -> Seq<U64TestSource> {
        Seq::new(self.fake_values@.len(), |k: int| U64TestSource::fresh(self.fake_values@[k], self.ncols))
    }

    open spec fn declared_orders(&self) -> Seq<DataOrder> {
        seq![DataOrder::RowMajor]
    }

    fn data_orders(&self) -> (orders: Vec<DataOrder>) {
        let mut orders: Vec<DataOrder> = Vec::new();
        orders.push(DataOrder::RowMajor);
        assert(orders@ =~= seq![DataOrder::RowMajor]);
        orders
    }

    /// Takes row-major order and no other.
    fn set_data_order(&mut self, order: DataOrder) -> (res: Result<(), ConnectorAgentError>)
        ensures
            res is Ok <==> order == DataOrder::RowMajor,
            res matches Err(e) ==> e == ConnectorAgentError::UnsupportedDataOrder,
            final(self).pending() == old(self).pending(),
            final(self).width() == old(self).width(),
    {
        proof {
            let declared = seq![DataOrder::RowMajor];
            assert(declared[0] == DataOrder::RowMajor);
            assert(declared.contains(DataOrder::RowMajor));
            assert(!declared.contains(DataOrder::ColumnMajor));
        }
        match order {
            DataOrder::RowMajor => Ok(()),
            DataOrder::ColumnMajor => Err(ConnectorAgentError::UnsupportedDataOrder),
        }
    }

    /// A fresh source of the first list of values that is left.
    fn build(&mut self) -> (source: Option<U64TestSource>)
        ensures
            final(self).width() == old(self).width(),
            match source {
                Some(source) => {
                    &&& old(self).pending().len() > 0
                    &&& source.wf()
                    &&& source.values() == old(self).pending()[0]
                    &&& source.width() == old(self).width()
                    &&& source.position() == 0
                    &&& final(self).pending() == old(self).pending().drop_first()
                },
                None => old(self).pending().len() == 0 && final(self).pending() == old(self).pending(),
            },
    {
        if self.fake_values.len() == 0 {
            return None;
        }
        let vals = self.fake_values.remove(0);
        assert(self.pending() =~= old(self).pending().drop_first());
        Some(U64TestSource::new(vals, self.ncols))
    }
}

impl U64TestSource {
    /// The values that the source was made with.
    pub closed spec fn values(&self) -> Seq<u64> {
        self.vals@
    }

    /// The number of values handed out so far.
    pub closed spec fn position(&self) -> nat {
        self.counter as nat
    }

    /// The number of columns that the values are read in.
    pub closed spec fn width(&self) -> nat {
        self.ncols as nat
    }

    /// The cells handed out are the values up to the position, each as a
    /// plain or as a present nullable integer.
    pub closed spec fn wf(&self) -> bool {
        &&& self.counter <= self.vals@.len()
        &&& self.log@.len() == self.counter
        &&& forall|i: int|
            0 <= i < self.counter ==> {
                ||| #[trigger] self.log@[i] == CellValue::U64(self.vals@[i])
                ||| self.log@[i] == CellValue::OptU64(Some(self.vals@[i]))
            }
    }

    /// The source that [`Self::new`] makes of these values.
    pub closed spec fn fresh(vals: Vec<u64>, ncols: usize) -> Self {
        U64TestSource { counter: 0, vals, ncols, log: Ghost(Seq::empty()), failed: Ghost(None) }
    }

    pub fn new(vals: Vec<u64>, ncols: usize) -> (source: Self)
        ensures
            source == Self::fresh(vals, ncols),
            source.wf(),
            source.values() == vals@,
            source.width() == ncols,
            source.position() == 0,
    {
        U64TestSource { counter: 0, vals, ncols, log: Ghost(Seq::empty()), failed: Ghost(None) }
    }

    /// The number of values handed out so far.
    pub fn produced(&self) -> (n: usize)
        ensures
            n == self.position(),
    {
        self.counter
    }

    /// The cells handed out so far are the first values, in their order:
    /// whichever type a value was asked as, its slot holds the value.
    pub proof fn lemma_emitted(&self)
        requires
            self.wf(),
        ensures
            self.position() <= self.values().len(),
            self.emitted().len() == self.position(),
            forall|i: int|
                0 <= i < self.position() ==> (#[trigger] self.emitted()[i]).encode() == (Slot {
                    word: self.values()[i],
                    present: true,
                }),
    {
    }
}

impl DataSource for U64TestSource {
    open spec fn continues(&self, earlier: &Self) -> bool {
        &&& self.values() == earlier.values()
        &&& self.width() == earlier.width()
        &&& earlier.position() <= self.position()
        &&& earlier.emitted().is_prefix_of(self.emitted())
        &&& earlier.wf() ==> self.wf()
    }

    proof fn lemma_continues_itself(&self) {
    }

    proof fn lemma_continues_onward(&self, middle: &Self, earlier: &Self) {
    }

    proof fn lemma_continues_keeps(&self, earlier: &Self) {
    }

    closed spec fn emitted(&self) -> Seq<CellValue> {
        self.log@
    }

    closed spec fn failure(&self) -> Option<ConnectorAgentError> {
        self.failed@
    }

    open spec fn row_count(&self) -> nat {
        if self.width() == 0 {
            0
        } else {
            self.values().len() / self.width()
        }
    }

    /// The number of whole rows among the values; none when there is no
    /// column.
    fn nrows(&self) -> (n: usize) {
        if self.ncols == 0 {
            0
        } else {
            self.vals.len() / self.ncols
        }
    }

    fn produce_f64(&mut self) -> (produced: Result<u64, ConnectorAgentError>)
        ensures
            produced is Err,
            produced->Err_0 is ProducerError,
            produced->Err_0->ProducerError_0@ == "Only Option<u64> is supported"@,
            old(self).wf() ==> final(self).wf(),
            final(self).values() == old(self).values(),
            final(self).width() == old(self).width(),
            final(self).position() == old(self).position(),
    {
        let e = unsupported("Only Option<u64> is supported");
        self.failed = Ghost(Some(e));
        Err(e)
    }

    /// The next value, while there is one.
    fn produce_u64(&mut self) -> (produced: Result<u64, ConnectorAgentError>)
        ensures
            old(self).wf() ==> final(self).wf(),
            final(self).values() == old(self).values(),
            final(self).width() == old(self).width(),
            match produced {
                Ok(value) => {
                    &&& old(self).position() < old(self).values().len()
                    &&& value == old(self).values()[old(self).position() as int]
                    &&& final(self).position() == old(self).position() + 1
                },
                Err(e) => {
                    &&& old(self).position() >= old(self).values().len()
                    &&& e is ProducerError
                    &&& e->ProducerError_0@ == "no value is left"@
                    &&& final(self).position() == old(self).position()
                },
            },
    {
        if self.counter < self.vals.len() {
            let value = self.vals[self.counter];
            self.counter += 1;
            self.log = Ghost(self.log@.push(CellValue::U64(value)));
            self.failed = Ghost(None);
            Ok(value)
        } else {
            let e = exhausted();
            self.failed = Ghost(Some(e));
            Err(e)
        }
    }

    fn produce_bool(&mut self) -> (produced: Result<bool, ConnectorAgentError>)
        ensures
            produced is Err,
            produced->Err_0 is ProducerError,
            produced->Err_0->ProducerError_0@ == "Only Option<u64> is supported"@,
            old(self).wf() ==> final(self).wf(),
            final(self).values() == old(self).values(),
            final(self).width() == old(self).width(),
            final(self).position() == old(self).position(),
    {
        let e = unsupported("Only Option<u64> is supported");
        self.failed = Ghost(Some(e));
        Err(e)
    }

    /// The next value as one that is present, while there is one.
    fn produce_opt_u64(&mut self) -> (produced: Result<Option<u64>, ConnectorAgentError>)
        ensures
            old(self).wf() ==> final(self).wf(),
            final(self).values() == old(self).values(),
            final(self).width() == old(self).width(),
            match produced {
                Ok(value) => {
                    &&& old(self).position() < old(self).values().len()
                    &&& value == Some(old(self).values()[old(self).position() as int])
                    &&& final(self).position() == old(self).position() + 1
                },
                Err(e) => {
                    &&& old(self).position() >= old(self).values().len()
                    &&& e is ProducerError
                    &&& e->ProducerError_0@ == "no value is left"@
                    &&& final(self).position() == old(self).position()
                },
            },
    {
        if self.counter < self.vals.len() {
            let value = self.vals[self.counter];
            self.counter += 1;
            self.log = Ghost(self.log@.push(CellValue::OptU64(Some(value))));
            self.failed = Ghost(None);
            Ok(Some(value))
        } else {
            let e = exhausted();
            self.failed = Ghost(Some(e));
            Err(e)
        }
    }
}

} // verus!
