use vstd::prelude::*;

verus! {

/// One annotated span submitted to the grammar checker: prose that is
/// checked, markup that is passed through uninterpreted, or interpreted
/// markup that is replaced by a checker-neutral substitute while the
/// original text is remembered for offset replay.
#[derive(Debug, PartialEq)]
pub enum AnnotationItem {
    PlainText(String),
    Markup(String),
    InterpretedMarkup(String, String),
}

/// Ghost mirror of an `AnnotationItem`.
pub enum ItemModel {
    PlainText(Seq<char>),
    Markup(Seq<char>),
    InterpretedMarkup(Seq<char>, Seq<char>),
}

impl View for AnnotationItem {
    type V = ItemModel;

    open spec fn view(&self) -> ItemModel {
        match self {
            AnnotationItem::PlainText(s) => ItemModel::PlainText(s@),
            AnnotationItem::Markup(s) => ItemModel::Markup(s@),
            AnnotationItem::InterpretedMarkup(o, s) => ItemModel::InterpretedMarkup(o@, s@),
        }
    }
}

/// The source text an item stands for in the original document.
pub open spec fn item_source(item: ItemModel) -> Seq<char> {
    match item {
        ItemModel::PlainText(s) => s,
        ItemModel::Markup(s) => s,
        ItemModel::InterpretedMarkup(original, _) => original,
    }
}

pub open spec fn items_view(v: Seq<AnnotationItem>) -> Seq<ItemModel> {
    v.map_values(|x: AnnotationItem| x@)
}

/// Total source length of a sequence of items.
pub open spec fn items_source_len(items: Seq<ItemModel>) -> int
    decreases items.len(),
{
    if items.len() == 0 {
        0
    } else {
        items_source_len(items.drop_last()) + item_source(items.last()).len()
    }
}

/// One unit submitted to the checker: an ordered item list together with the
/// total character count of the source text the batch represents.
#[derive(Debug, PartialEq)]
pub struct CheckBatch {
    pub items: Vec<AnnotationItem>,
    pub original_length: usize,
}

/// Ghost mirror of a `CheckBatch`.
#[verifier::ext_equal]
pub struct BatchModel {
    pub items: Seq<ItemModel>,
    pub original_length: int,
}

impl View for CheckBatch {
    type V = BatchModel;

    open spec fn view(&self) -> BatchModel {
        BatchModel {
            items: items_view(self.items@),
            original_length: self.original_length as int,
        }
    }
}

pub open spec fn batch_wf(b: BatchModel) -> bool {
    b.original_length == items_source_len(b.items)
}

pub open spec fn empty_batch() -> BatchModel {
    BatchModel { items: Seq::empty(), original_length: 0 }
}

/// The span currently being accumulated, before it is flushed into an item.
#[derive(Debug, PartialEq)]
pub enum OutputState {
    Text(String),
    Markup(String),
    Encoded(String, String),
}

/// Ghost mirror of an `OutputState`.
pub enum StateModel {
    Text(Seq<char>),
    Markup(Seq<char>),
    Encoded(Seq<char>, Seq<char>),
}

impl View for OutputState {
    type V = StateModel;

    open spec fn view(&self) -> StateModel {
        match self {
            OutputState::Text(s) => StateModel::Text(s@),
            OutputState::Markup(s) => StateModel::Markup(s@),
            OutputState::Encoded(o, s) => StateModel::Encoded(o@, s@),
        }
    }
}

/// The item a pending span flushes to.
pub open spec fn state_item(st: StateModel) -> ItemModel {
    match st {
        StateModel::Text(s) => ItemModel::PlainText(s),
        StateModel::Markup(s) => ItemModel::Markup(s),
        StateModel::Encoded(o, s) => ItemModel::InterpretedMarkup(o, s),
    }
}

/// Source length of the pending span.
pub open spec fn state_source_len(st: StateModel) -> int {
    item_source(state_item(st)).len() as int
}

/// Ghost mirror of the whole builder.
#[verifier::ext_equal]
pub struct OutputModel {
    pub batches: Seq<BatchModel>,
    pub state: StateModel,
}

pub open spec fn batches_view(v: Seq<CheckBatch>) -> Seq<BatchModel> {
    v.map_values(|b: CheckBatch| b@)
}

/// Accumulates alternating spans of plain text, literal markup and encoded
/// markup into a minimal list of checker-submittable items, merging adjacent
/// same-kind spans, and splits the item list into batches on request.
#[derive(Debug, PartialEq)]
pub struct Output {
    items: Vec<CheckBatch>,
    state: OutputState,
}

impl View for Output {
    type V = OutputModel;

    closed spec fn view(&self) -> OutputModel {
        OutputModel { batches: batches_view(self.items@), state: self.state@ }
    }
}

// ---- abstract transitions, mirrored by the executable methods ----

pub open spec fn spec_add_item(o: OutputModel, item: ItemModel) -> OutputModel {
    let last = o.batches.last();
    let updated = BatchModel {
        items: last.items.push(item),
        original_length: last.original_length + item_source(item).len(),
    };
    OutputModel { batches: o.batches.update(o.batches.len() - 1, updated), state: o.state }
}

pub open spec fn spec_add_text(o: OutputModel, text: Seq<char>) -> OutputModel {
    match o.state {
        StateModel::Text(t) => OutputModel { batches: o.batches, state: StateModel::Text(t + text) },
        _ => OutputModel {
            batches: spec_add_item(o, state_item(o.state)).batches,
            state: StateModel::Text(text),
        },
    }
}

pub open spec fn spec_add_markup(o: OutputModel, text: Seq<char>) -> OutputModel {
    match o.state {
        StateModel::Markup(t) => OutputModel {
            batches: o.batches,
            state: StateModel::Markup(t + text),
        },
        _ => OutputModel {
            batches: spec_add_item(o, state_item(o.state)).batches,
            state: StateModel::Markup(text),
        },
    }
}

pub open spec fn spec_add_encoded(o: OutputModel, text: Seq<char>, res: Seq<char>) -> OutputModel {
    match o.state {
        StateModel::Encoded(t, a) => OutputModel {
            batches: o.batches,
            state: StateModel::Encoded(t + text, a + res),
        },
        _ => OutputModel {
            batches: spec_add_item(o, state_item(o.state)).batches,
            state: StateModel::Encoded(text, res),
        },
    }
}

/// When the running batch has outgrown `max`, close it (flushing the pending
/// span into it) and start a new batch with an empty text span.
pub open spec fn spec_separate(o: OutputModel, max: int) -> OutputModel {
    if o.batches.last().original_length > max {
        OutputModel {
            batches: spec_add_item(o, state_item(o.state)).batches.push(empty_batch()),
            state: StateModel::Text(Seq::empty()),
        }
    } else {
        o
    }
}

pub open spec fn spec_result(o: OutputModel) -> Seq<BatchModel> {
    spec_add_item(o, state_item(o.state)).batches
}

// ---- well-formedness and accounting ----

pub open spec fn output_wf(o: OutputModel) -> bool {
    &&& o.batches.len() >= 1
    &&& forall|i: int| 0 <= i < o.batches.len() ==> batch_wf(#[trigger] o.batches[i])
}

/// Whether two items are spans of the same kind (the builder would have
/// coalesced them).
pub open spec fn same_kind(a: ItemModel, b: ItemModel) -> bool {
    match (a, b) {
        (ItemModel::PlainText(_), ItemModel::PlainText(_)) => true,
        (ItemModel::Markup(_), ItemModel::Markup(_)) => true,
        (ItemModel::InterpretedMarkup(_, _), ItemModel::InterpretedMarkup(_, _)) => true,
        _ => false,
    }
}

/// Adjacent same-kind spans were coalesced: consecutive items of a batch
/// differ in kind.
pub open spec fn alternating(items: Seq<ItemModel>) -> bool {
    forall|i: int| 0 <= i && i + 1 < items.len() ==> !same_kind(#[trigger] items[i], items[i + 1])
}

/// The builder's minimality invariant: every batch's items alternate in
/// kind, and the pending span differs in kind from the open batch's last
/// item (else it would have been merged into it).
pub open spec fn alternation_wf(o: OutputModel) -> bool {
    &&& forall|i: int|
        0 <= i < o.batches.len() ==> alternating((#[trigger] o.batches[i]).items)
    &&& (o.batches.len() > 0 && o.batches.last().items.len() > 0 ==> !same_kind(
        o.batches.last().items.last(),
        state_item(o.state),
    ))
}

/// Flushing the pending span keeps every batch alternating: the span's kind
/// differs from the open batch's last item.
pub proof fn lemma_push_item_alternation(o: OutputModel, item: ItemModel)
    requires
        output_wf(o),
        alternation_wf(o),
        item == state_item(o.state),
    ensures
        forall|i: int|
            0 <= i < spec_add_item(o, item).batches.len() ==> alternating(
                (#[trigger] spec_add_item(o, item).batches[i]).items,
            ),
{
    let nb = spec_add_item(o, item).batches;
    assert forall|i: int| 0 <= i < nb.len() implies alternating((#[trigger] nb[i]).items) by {
        if i < nb.len() - 1 {
            assert(nb[i] == o.batches[i]);
        } else {
            let olditems = o.batches.last().items;
            let items = nb.last().items;
            assert(items =~= olditems.push(item));
            assert forall|j: int| 0 <= j && j + 1 < items.len() implies !same_kind(
                #[trigger] items[j],
                items[j + 1],
            ) by {
                if j + 1 < items.len() - 1 {
                    assert(items[j] == olditems[j]);
                    assert(items[j + 1] == olditems[j + 1]);
                } else {
                    assert(items[j] == olditems.last());
                    assert(items[j + 1] == item);
                }
            }
        }
    }
}

/// Source length already committed to batches.
pub open spec fn closed_source_len(batches: Seq<BatchModel>) -> int
    decreases batches.len(),
{
    if batches.len() == 0 {
        0
    } else {
        closed_source_len(batches.drop_last()) + batches.last().original_length
    }
}

/// Source length of everything fed into the builder so far.
pub open spec fn total_source_len(o: OutputModel) -> int {
    closed_source_len(o.batches) + state_source_len(o.state)
}

/// What is pending in the open batch and the open span; bounding it is what
/// keeps the running `original_length` counter within `usize`.
pub open spec fn pending_len(o: OutputModel) -> int {
    o.batches.last().original_length + state_source_len(o.state)
}

impl Output {
    pub fn new() -> (r: Self)
        ensures
            r@.batches =~~= seq![empty_batch()],
            r@.state == StateModel::Text(Seq::<char>::empty()),
            output_wf(r@),
            alternation_wf(r@),
            total_source_len(r@) == 0,
            pending_len(r@) == 0,
    {
        let mut items: Vec<CheckBatch> = Vec::new();
        items.push(CheckBatch { items: Vec::new(), original_length: 0 });
        let r = Output { items, state: OutputState::Text(String::new()) };
        proof {
            assert(r@.batches =~~= seq![empty_batch()]);
            assert(r@.batches.drop_last() =~= Seq::<BatchModel>::empty());
            assert(closed_source_len(Seq::<BatchModel>::empty()) == 0);
            assert(r@.batches.last() == empty_batch());
            assert(closed_source_len(r@.batches) == 0);
        }
        r
    }

    /// A copy of the pending span, so it can be flushed without aliasing.
    fn clone_state(&self) -> (r: OutputState)
        ensures
            r@ == self@.state,
    {
        match &self.state {
            OutputState::Text(t) => OutputState::Text(t.clone()),
            OutputState::Markup(t) => OutputState::Markup(t.clone()),
            OutputState::Encoded(t, a) => OutputState::Encoded(t.clone(), a.clone()),
        }
    }

    fn add_item(&mut self, item: AnnotationItem)
        requires
            output_wf(old(self)@),
            old(self)@.batches.last().original_length + item_source(item@).len() <= usize::MAX,
        ensures
            final(self)@ == spec_add_item(old(self)@, item@),
            output_wf(final(self)@),
    {
        let source_len: usize = match &item {
            AnnotationItem::PlainText(s) => s.unicode_len(),
            AnnotationItem::Markup(s) => s.unicode_len(),
            AnnotationItem::InterpretedMarkup(o, _) => o.unicode_len(),
        };
        let mut last = self.items.pop().unwrap();
        last.items.push(item);
        last.original_length = last.original_length + source_len;
        self.items.push(last);
        proof {
            let oldm = old(self)@;
            let newm = spec_add_item(oldm, item@);
            assert(items_view(last.items@) =~= oldm.batches.last().items.push(item@));
            assert(self@.batches =~= newm.batches);
            assert(self@.batches.len() == oldm.batches.len());
            let updated = newm.batches.last();
            assert(updated.items.drop_last() =~= oldm.batches.last().items);
            assert forall|i: int| 0 <= i < self@.batches.len() implies batch_wf(
                #[trigger] self@.batches[i],
            ) by {
                if i < self@.batches.len() - 1 {
                    assert(self@.batches[i] == oldm.batches[i]);
                }
            }
        }
    }

    pub fn add_text(&mut self, text: String)
        requires
            output_wf(old(self)@),
            alternation_wf(old(self)@),
            pending_len(old(self)@) + text@.len() <= usize::MAX,
        ensures
            final(self)@ == spec_add_text(old(self)@, text@),
            output_wf(final(self)@),
            alternation_wf(final(self)@),
            pending_len(final(self)@) <= pending_len(old(self)@) + text@.len(),
            total_source_len(final(self)@) == total_source_len(old(self)@) + text@.len(),
    {
        proof {
            lemma_add_item_accounting(old(self)@, state_item(old(self)@.state));
            lemma_push_item_alternation(old(self)@, state_item(old(self)@.state));
        }
        let st = self.clone_state();
        match st {
            OutputState::Text(t) => {
                self.state = OutputState::Text(t.concat(text.as_str()));
            },
            OutputState::Markup(t) => {
                self.add_item(AnnotationItem::Markup(t));
                self.state = OutputState::Text(text);
            },
            OutputState::Encoded(t, a) => {
                self.add_item(AnnotationItem::InterpretedMarkup(t, a));
                self.state = OutputState::Text(text);
            },
        }
    }

    pub fn add_markup(&mut self, text: String)
        requires
            output_wf(old(self)@),
            alternation_wf(old(self)@),
            pending_len(old(self)@) + text@.len() <= usize::MAX,
        ensures
            final(self)@ == spec_add_markup(old(self)@, text@),
            output_wf(final(self)@),
            alternation_wf(final(self)@),
            pending_len(final(self)@) <= pending_len(old(self)@) + text@.len(),
            total_source_len(final(self)@) == total_source_len(old(self)@) + text@.len(),
    {
        proof {
            lemma_add_item_accounting(old(self)@, state_item(old(self)@.state));
            lemma_push_item_alternation(old(self)@, state_item(old(self)@.state));
        }
        let st = self.clone_state();
        match st {
            OutputState::Markup(t) => {
                self.state = OutputState::Markup(t.concat(text.as_str()));
            },
            OutputState::Text(t) => {
                self.add_item(AnnotationItem::PlainText(t));
                self.state = OutputState::Markup(text);
            },
            OutputState::Encoded(t, a) => {
                self.add_item(AnnotationItem::InterpretedMarkup(t, a));
                self.state = OutputState::Markup(text);
            },
        }
    }

    pub fn add_encoded(&mut self, text: String, res: String)
        requires
            output_wf(old(self)@),
            alternation_wf(old(self)@),
            pending_len(old(self)@) + text@.len() <= usize::MAX,
        ensures
            final(self)@ == spec_add_encoded(old(self)@, text@, res@),
            output_wf(final(self)@),
            alternation_wf(final(self)@),
            pending_len(final(self)@) <= pending_len(old(self)@) + text@.len(),
            total_source_len(final(self)@) == total_source_len(old(self)@) + text@.len(),
    {
        proof {
            lemma_add_item_accounting(old(self)@, state_item(old(self)@.state));
            lemma_push_item_alternation(old(self)@, state_item(old(self)@.state));
        }
        let st = self.clone_state();
        match st {
            OutputState::Encoded(t, a) => {
                self.state = OutputState::Encoded(t.concat(text.as_str()), a.concat(res.as_str()));
            },
            OutputState::Text(t) => {
                self.add_item(AnnotationItem::PlainText(t));
                self.state = OutputState::Encoded(text, res);
            },
            OutputState::Markup(t) => {
                self.add_item(AnnotationItem::Markup(t));
                self.state = OutputState::Encoded(text, res);
            },
        }
    }

    /// Close the running batch and start a new one if it has outgrown `max`:
    /// a batch is closed only when it already exceeds `max`, and after every
    /// check the still-open batch counts at most `max` characters.
    pub fn maybe_separate(&mut self, max: usize)
        requires
            output_wf(old(self)@),
            alternation_wf(old(self)@),
            pending_len(old(self)@) <= usize::MAX,
        ensures
            final(self)@ == spec_separate(old(self)@, max as int),
            output_wf(final(self)@),
            alternation_wf(final(self)@),
            pending_len(final(self)@) <= pending_len(old(self)@),
            total_source_len(final(self)@) == total_source_len(old(self)@),
    {
        proof {
            lemma_add_item_accounting(old(self)@, state_item(old(self)@.state));
            lemma_push_item_alternation(old(self)@, state_item(old(self)@.state));
        }
        let last_index: usize = self.items.len() - 1;
        let over = self.items[last_index].original_length > max;
        if over {
            let st = self.clone_state();
            let item = match st {
                OutputState::Text(t) => AnnotationItem::PlainText(t),
                OutputState::Markup(t) => AnnotationItem::Markup(t),
                OutputState::Encoded(t, a) => AnnotationItem::InterpretedMarkup(t, a),
            };
            self.add_item(item);
            self.state = OutputState::Text(String::new());
            self.items.push(CheckBatch { items: Vec::new(), original_length: 0 });
            proof {
                let target = spec_separate(old(self)@, max as int);
                assert(self@.batches.last().items =~= Seq::<ItemModel>::empty());
                assert(self@.batches =~= target.batches);
                assert(self@.batches.drop_last() =~= spec_add_item(
                    old(self)@,
                    state_item(old(self)@.state),
                ).batches);
            }
        }
    }

    /// Flush the pending span and hand out the finished batches.
    pub fn result(self) -> (r: Vec<CheckBatch>)
        requires
            output_wf(self@),
            alternation_wf(self@),
            pending_len(self@) <= usize::MAX,
        ensures
            batches_view(r@) == spec_result(self@),
            forall|i: int| 0 <= i < r@.len() ==> batch_wf(#[trigger] batches_view(r@)[i]),
            forall|i: int|
                0 <= i < r@.len() ==> alternating((#[trigger] batches_view(r@)[i]).items),
            r@.len() >= 1,
    {
        proof {
            lemma_push_item_alternation(self@, state_item(self@.state));
        }
        let mut out = self;
        let st = out.clone_state();
        let item = match st {
            OutputState::Text(t) => AnnotationItem::PlainText(t),
            OutputState::Markup(t) => AnnotationItem::Markup(t),
            OutputState::Encoded(t, a) => AnnotationItem::InterpretedMarkup(t, a),
        };
        out.add_item(item);
        out.items
    }
}

/// Flushing the pending span into the open batch moves its length from the
/// span to the batch: the totals are unchanged.
pub proof fn lemma_add_item_accounting(o: OutputModel, item: ItemModel)
    requires
        output_wf(o),
    ensures
        closed_source_len(spec_add_item(o, item).batches) == closed_source_len(o.batches)
            + item_source(item).len(),
        spec_add_item(o, item).batches.last().original_length == o.batches.last().original_length
            + item_source(item).len(),
{
    let updated = spec_add_item(o, item).batches;
    assert(updated.drop_last() =~= o.batches.drop_last());
    assert(updated.last() == BatchModel {
        items: o.batches.last().items.push(item),
        original_length: o.batches.last().original_length + item_source(item).len(),
    });
}

/// Flushing the pending span keeps the builder well formed.
pub proof fn lemma_spec_add_item_wf(o: OutputModel, item: ItemModel)
    requires
        output_wf(o),
    ensures
        output_wf(spec_add_item(o, item)),
        spec_add_item(o, item).batches.len() == o.batches.len(),
        forall|i: int|
            0 <= i < o.batches.len() - 1 ==> spec_add_item(o, item).batches[i] == #[trigger] o.batches[i],
{
    let updated = spec_add_item(o, item).batches;
    let last = updated.last();
    assert(last.items.drop_last() =~= o.batches.last().items);
    assert(batch_wf(last));
    assert forall|i: int| 0 <= i < updated.len() implies batch_wf(#[trigger] updated[i]) by {
        if i < updated.len() - 1 {
            assert(updated[i] == o.batches[i]);
        }
    }
}

/// Appending a text span adds its length to the builder's totals.
pub proof fn lemma_spec_add_text(o: OutputModel, t: Seq<char>)
    requires
        output_wf(o),
    ensures
        output_wf(spec_add_text(o, t)),
        total_source_len(spec_add_text(o, t)) == total_source_len(o) + t.len(),
        pending_len(spec_add_text(o, t)) <= pending_len(o) + t.len(),
        spec_add_text(o, t).batches.len() == o.batches.len(),
        forall|i: int|
            0 <= i < o.batches.len() - 1 ==> spec_add_text(o, t).batches[i] == #[trigger] o.batches[i],
{
    match o.state {
        StateModel::Text(_) => {
        },
        _ => {
            lemma_spec_add_item_wf(o, state_item(o.state));
            lemma_add_item_accounting(o, state_item(o.state));
        },
    }
}

/// Appending a markup span adds its length to the builder's totals.
pub proof fn lemma_spec_add_markup(o: OutputModel, t: Seq<char>)
    requires
        output_wf(o),
    ensures
        output_wf(spec_add_markup(o, t)),
        total_source_len(spec_add_markup(o, t)) == total_source_len(o) + t.len(),
        pending_len(spec_add_markup(o, t)) <= pending_len(o) + t.len(),
        spec_add_markup(o, t).batches.len() == o.batches.len(),
        forall|i: int|
            0 <= i < o.batches.len() - 1 ==> spec_add_markup(o, t).batches[i] == #[trigger] o.batches[i],
{
    match o.state {
        StateModel::Markup(_) => {
        },
        _ => {
            lemma_spec_add_item_wf(o, state_item(o.state));
            lemma_add_item_accounting(o, state_item(o.state));
        },
    }
}

/// Appending an encoded span adds the length of its original text (not of
/// its substitute) to the builder's totals.
pub proof fn lemma_spec_add_encoded(o: OutputModel, t: Seq<char>, res: Seq<char>)
    requires
        output_wf(o),
    ensures
        output_wf(spec_add_encoded(o, t, res)),
        total_source_len(spec_add_encoded(o, t, res)) == total_source_len(o) + t.len(),
        pending_len(spec_add_encoded(o, t, res)) <= pending_len(o) + t.len(),
        spec_add_encoded(o, t, res).batches.len() == o.batches.len(),
        forall|i: int|
            0 <= i < o.batches.len() - 1 ==> spec_add_encoded(o, t, res).batches[i] == #[trigger] o.batches[i],
{
    match o.state {
        StateModel::Encoded(_, _) => {
        },
        _ => {
            lemma_spec_add_item_wf(o, state_item(o.state));
            lemma_add_item_accounting(o, state_item(o.state));
        },
    }
}

/// A paragraph-boundary check never loses source text, never grows the
/// pending length, and always leaves the open batch within `max`.
pub proof fn lemma_spec_separate(o: OutputModel, max: int)
    requires
        output_wf(o),
        max >= 0,
    ensures
        output_wf(spec_separate(o, max)),
        total_source_len(spec_separate(o, max)) == total_source_len(o),
        pending_len(spec_separate(o, max)) <= pending_len(o),
        spec_separate(o, max).batches.len() >= o.batches.len(),
        spec_separate(o, max).batches.last().original_length <= max,
        forall|i: int|
            0 <= i < o.batches.len() - 1 ==> spec_separate(o, max).batches[i] == #[trigger] o.batches[i],
        forall|i: int|
            0 <= i < spec_separate(o, max).batches.len() - 1 && i >= o.batches.len() - 1
                ==> (#[trigger] spec_separate(o, max).batches[i]).original_length > max,
{
    if o.batches.last().original_length > max {
        lemma_spec_add_item_wf(o, state_item(o.state));
        lemma_add_item_accounting(o, state_item(o.state));
        let flushed = spec_add_item(o, state_item(o.state)).batches;
        let pushed = flushed.push(empty_batch());
        assert(pushed.drop_last() =~= flushed);
        assert(pending_len(o) >= 0) by {
            lemma_items_source_len_nonneg(o.batches.last().items);
        }
    }
}

pub proof fn lemma_items_source_len_nonneg(items: Seq<ItemModel>)
    ensures
        items_source_len(items) >= 0,
    decreases items.len(),
{
    if items.len() > 0 {
        lemma_items_source_len_nonneg(items.drop_last());
    }
}

/// The source text committed to batches is never negative.
pub proof fn lemma_closed_source_len_nonneg(batches: Seq<BatchModel>)
    requires
        forall|i: int| 0 <= i < batches.len() ==> batch_wf(#[trigger] batches[i]),
    ensures
        closed_source_len(batches) >= 0,
    decreases batches.len(),
{
    if batches.len() > 0 {
        assert(forall|i: int|
            0 <= i < batches.drop_last().len() ==> batch_wf(#[trigger] batches.drop_last()[i]));
        lemma_closed_source_len_nonneg(batches.drop_last());
        lemma_items_source_len_nonneg(batches.last().items);
    }
}


// ---- replaying batches over the source text ----

/// The cursor position after consuming the first `i` batches' source.
pub proof fn lemma_closed_take_step(batches: Seq<BatchModel>, i: int)
    requires
        0 <= i < batches.len(),
    ensures
        closed_source_len(batches.take(i + 1)) == closed_source_len(batches.take(i))
            + batches[i].original_length,
{
    assert(batches.take(i + 1).drop_last() =~= batches.take(i));
    assert(batches.take(i + 1).last() == batches[i]);
}

/// Consuming batches never moves the cursor backwards nor past the total.
pub proof fn lemma_closed_take_le(batches: Seq<BatchModel>, i: int)
    requires
        forall|j: int| 0 <= j < batches.len() ==> batch_wf(#[trigger] batches[j]),
        0 <= i <= batches.len(),
    ensures
        0 <= closed_source_len(batches.take(i)) <= closed_source_len(batches),
    decreases batches.len() - i,
{
    assert(forall|j: int|
        0 <= j < batches.take(i).len() ==> batch_wf(#[trigger] batches.take(i)[j]));
    lemma_closed_source_len_nonneg(batches.take(i));
    if i == batches.len() {
        assert(batches.take(i) =~= batches);
    } else {
        lemma_closed_take_step(batches, i);
        lemma_items_source_len_nonneg(batches[i].items);
        lemma_closed_take_le(batches, i + 1);
    }
}

/// Replaying every batch's declared length in order stays within a text of
/// the batches' total source length and ends exactly at its end: each step
/// starts at the running prefix sum, which never exceeds the total.
pub proof fn lemma_batches_replayable(batches: Seq<BatchModel>, i: int)
    requires
        forall|j: int| 0 <= j < batches.len() ==> batch_wf(#[trigger] batches[j]),
        0 <= i < batches.len(),
    ensures
        0 <= closed_source_len(batches.take(i)),
        closed_source_len(batches.take(i)) + batches[i].original_length == closed_source_len(
            batches.take(i + 1),
        ),
        closed_source_len(batches.take(i + 1)) <= closed_source_len(batches),
        closed_source_len(batches.take(batches.len() as int)) == closed_source_len(batches),
{
    lemma_closed_take_step(batches, i);
    lemma_closed_take_le(batches, i);
    lemma_closed_take_le(batches, i + 1);
    assert(batches.take(batches.len() as int) =~= batches);
}

} // verus!
