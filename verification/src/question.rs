use crate::idset::texts;
use vstd::prelude::*;
use vstd::string::to_string_from_display_ensures;

verus! {

/// A question as it goes into the record: what was asked and what was answered.
#[derive(Debug)]
pub struct Summary {
    pub id: String,
    pub description: String,
    pub options: Vec<String>,
    pub selection: String,
}

/// A question with one answer out of several.
#[derive(Debug)]
pub struct SingleChoice {
    pub id: String,
    pub description: String,
    pub options: Vec<String>,
    pub selected: Option<usize>,
}

/// A question with any number of answers out of several.
#[derive(Debug)]
pub struct MultiChoice {
    pub id: String,
    pub description: String,
    pub options: Vec<String>,
    pub selected: Vec<bool>,
}

#[derive(Debug)]
pub enum StdQuestion {
    SingleChoice(SingleChoice),
    MultiChoice(MultiChoice),
}

#[derive(Debug)]
pub enum StdAnswer {
    SingleChoice(Option<usize>),
    MultiChoice(Vec<bool>),
}

/// What the `Debug` formatting of the standard library makes of the text `s`: the text
/// between double quotes, with the characters escaped that need it.
pub uninterp spec fn debug_text(s: Seq<char>) -> Seq<char>;

/// Writes a text as the `Debug` formatting of `str` does, through `format!` with `{:?}`.
/// The result is a function of the text alone and goes by the name `debug_text`.
#[verifier::external_body]
fn quoted(s: &str) -> (r: String)
    ensures
        r@ == debug_text(s@),
{
    format!("{:?}", s)
}

/// The texts `items` between square brackets, a comma and a blank between each two.
pub open spec fn listing(items: Seq<Seq<char>>) -> Seq<char> {
    "["@ + enumeration(items) + "]"@
}

/// The texts `items` in a row, a comma and a blank between each two.
pub open spec fn enumeration(items: Seq<Seq<char>>) -> Seq<char>
    decreases items.len(),
{
    if items.len() == 0 {
        Seq::empty()
    } else if items.len() == 1 {
        items[0]
    } else {
        enumeration(items.drop_last()) + ", "@ + items.last()
    }
}

/// Writes the texts `items` between square brackets, a comma and a blank between each two.
pub fn listed(items: &Vec<String>) -> (r: String)
    ensures
        r@ == listing(texts(items@)),
{
    let ghost all = texts(items@);
    let mut r = String::from_str("[");
    let mut i: usize = 0;
    while i < items.len()
        invariant
            i <= items.len(),
            all == texts(items@),
            r@ == "["@ + enumeration(all.take(i as int)),
        decreases items.len() - i,
    {
        proof {
            assert(all.take(i + 1).drop_last() =~= all.take(i as int));
            assert(all.take(i + 1).last() == items@[i as int]@);
        }
        if i > 0 {
            r.append(", ");
        }
        r.append(items[i].as_str());
        proof {
            if i == 0 {
                assert(all.take(1)[0] == items@[0]@);
                assert(enumeration(all.take(0)) =~= Seq::<char>::empty());
                assert(r@ =~= "["@ + enumeration(all.take(1)));
            } else {
                assert(r@ =~= "["@ + enumeration(all.take(i + 1)));
            }
        }
        i += 1;
    }
    proof {
        assert(all.take(all.len() as int) =~= all);
    }
    r.append("]");
    r
}

/// The options of `options` that are marked in `selected`, in their order; an option
/// without a mark counts as not marked.
pub open spec fn marked(options: Seq<Seq<char>>, selected: Seq<bool>, k: int) -> Seq<Seq<char>>
    decreases k,
{
    if k <= 0 {
        Seq::empty()
    } else {
        let front = marked(options, selected, k - 1);
        if k - 1 < selected.len() && selected[k - 1] {
            front.push(options[k - 1])
        } else {
            front
        }
    }
}

/// The options that are marked, in their order.
pub fn marked_options(options: &Vec<String>, selected: &Vec<bool>) -> (r: Vec<String>)
    ensures
        texts(r@) == marked(texts(options@), selected@, options@.len() as int),
{
    let mut r: Vec<String> = Vec::new();
    let mut i: usize = 0;
    assert(texts(r@) =~= Seq::empty());
    while i < options.len()
        invariant
            i <= options.len(),
            texts(r@) == marked(texts(options@), selected@, i as int),
        decreases options.len() - i,
    {
        if i < selected.len() && selected[i] {
            let ghost before = texts(r@);
            r.push(options[i].clone());
            assert(texts(r@) =~= before.push(options@[i as int]@));
        }
        i += 1;
    }
    r
}

/// The texts of `items`, each as its `Debug` formatting.
pub open spec fn debug_texts(items: Seq<Seq<char>>) -> Seq<Seq<char>> {
    Seq::new(items.len(), |i: int| debug_text(items[i]))
}

fn quoted_all(items: &Vec<String>) -> (r: Vec<String>)
    ensures
        texts(r@) == debug_texts(texts(items@)),
{
    let mut r: Vec<String> = Vec::new();
    let mut i: usize = 0;
    while i < items.len()
        invariant
            i <= items.len(),
            r@.len() == i,
            forall|j: int| 0 <= j < i ==> (#[trigger] r@[j])@ == debug_text(items@[j]@),
        decreases items.len() - i,
    {
        r.push(quoted(items[i].as_str()));
        i += 1;
    }
    assert(texts(r@) =~= debug_texts(texts(items@)));
    r
}

fn labels<T: core::fmt::Display>(options: &[T]) -> (r: Vec<String>)
    ensures
        r@.len() == options@.len(),
        forall|i: int|
            0 <= i < options@.len() ==> to_string_from_display_ensures::<T>(
                &options@[i],
                #[trigger] r@[i],
            ),
{
    let mut r: Vec<String> = Vec::new();
    let mut i: usize = 0;
    while i < options.len()
        invariant
            i <= options@.len(),
            r@.len() == i,
            forall|j: int|
                0 <= j < i ==> to_string_from_display_ensures::<T>(&options@[j], #[trigger] r@[j]),
        decreases options@.len() - i,
    {
        r.push(options[i].to_string());
        i += 1;
    }
    r
}

fn owned(options: &[&str]) -> (r: Vec<String>)
    ensures
        r@.len() == options@.len(),
        forall|i: int| 0 <= i < options@.len() ==> (#[trigger] r@[i])@ == options@[i]@,
{
    let mut r: Vec<String> = Vec::new();
    let mut i: usize = 0;
    while i < options.len()
        invariant
            i <= options@.len(),
            r@.len() == i,
            forall|j: int| 0 <= j < i ==> (#[trigger] r@[j])@ == options@[j]@,
        decreases options@.len() - i,
    {
        r.push(String::from_str(options[i]));
        i += 1;
    }
    r
}

impl SingleChoice {
    /// A question with the given options, written as they display, and no answer yet.
    pub fn new<T: core::fmt::Display>(id: &str, description: &str, options: &[T]) -> (r: Self)
        ensures
            r.id@ == id@,
            r.description@ == description@,
            r.selected is None,
            r.options@.len() == options@.len(),
            forall|i: int|
                0 <= i < options@.len() ==> to_string_from_display_ensures::<T>(
                    &options@[i],
                    #[trigger] r.options@[i],
                ),
    {
        SingleChoice {
            id: String::from_str(id),
            description: String::from_str(description),
            options: labels(options),
            selected: None,
        }
    }

    pub fn id(&self) -> (r: String)
        ensures
            r@ == self.id@,
    {
        self.id.clone()
    }

    pub fn description(&self) -> (r: String)
        ensures
            r@ == self.description@,
    {
        self.description.clone()
    }

    pub fn options(&self) -> (r: Vec<String>)
        ensures
            texts(r@) == texts(self.options@),
    {
        crate::action::clone_texts(&self.options)
    }

    /// Takes an answer; says whether it is one for a question of this kind. Any other
    /// leaves the question as it was.
    pub fn update(&mut self, value: StdAnswer) -> (r: bool)
        ensures
            r == value is SingleChoice,
            final(self).selected == if r {
                value->SingleChoice_0
            } else {
                old(self).selected
            },
            final(self).id == old(self).id,
            final(self).description == old(self).description,
            final(self).options == old(self).options,
    {
        match value {
            StdAnswer::SingleChoice(v) => {
                self.selected = v;
                true
            },
            _ => false,
        }
    }

    /// The answer as text.
    pub open spec fn spec_response(&self) -> Seq<char> {
        match self.selected {
            Some(i) => if i < self.options@.len() {
                debug_text(self.options@[i as int]@)
            } else {
                "[]"@
            },
            None => "[]"@,
        }
    }

    /// The answer as text: the chosen option as its `Debug` formatting, or an empty pair
    /// of square brackets where nothing is chosen or the choice is no option.
    pub fn response(&self) -> (r: String)
        ensures
            r@ == self.spec_response(),
    {
        match self.selected {
            Some(i) => {
                if i < self.options.len() {
                    quoted(self.options[i].as_str())
                } else {
                    String::from_str("[]")
                }
            },
            None => String::from_str("[]"),
        }
    }

    pub fn summary(&self) -> (r: Summary)
        ensures
            r.id@ == self.id@,
            r.description@ == self.description@,
            texts(r.options@) == texts(self.options@),
            r.selection@ == self.spec_response(),
    {
        Summary {
            id: self.id(),
            description: self.description(),
            options: self.options(),
            selection: self.response(),
        }
    }
}

impl MultiChoice {
    /// A question with the given options, written as they display, none of them marked.
    pub fn new<T: core::fmt::Display>(id: &str, description: &str, options: &[T]) -> (r: Self)
        ensures
            r.id@ == id@,
            r.description@ == description@,
            r.selected@ == Seq::new(options@.len(), |i: int| false),
            r.options@.len() == options@.len(),
            forall|i: int|
                0 <= i < options@.len() ==> to_string_from_display_ensures::<T>(
                    &options@[i],
                    #[trigger] r.options@[i],
                ),
    {
        let mut selected: Vec<bool> = Vec::new();
        let mut i: usize = 0;
        while i < options.len()
            invariant
                i <= options@.len(),
                selected@.len() == i,
                forall|j: int| 0 <= j < i ==> !selected@[j],
            decreases options@.len() - i,
        {
            selected.push(false);
            i += 1;
        }
        assert(selected@ =~= Seq::new(options@.len(), |i: int| false));
        MultiChoice {
            id: String::from_str(id),
            description: String::from_str(description),
            options: labels(options),
            selected,
        }
    }

    pub fn id(&self) -> (r: String)
        ensures
            r@ == self.id@,
    {
        self.id.clone()
    }

    pub fn description(&self) -> (r: String)
        ensures
            r@ == self.description@,
    {
        self.description.clone()
    }

    pub fn options(&self) -> (r: Vec<String>)
        ensures
            texts(r@) == texts(self.options@),
    {
        crate::action::clone_texts(&self.options)
    }

    /// Takes an answer; says whether it is one for a question of this kind. Any other
    /// leaves the question as it was.
    pub fn update(&mut self, value: StdAnswer) -> (r: bool)
        ensures
            r == value is MultiChoice,
            final(self).selected == if r {
                value->MultiChoice_0
            } else {
                old(self).selected
            },
            final(self).id == old(self).id,
            final(self).description == old(self).description,
            final(self).options == old(self).options,
    {
        match value {
            StdAnswer::MultiChoice(v) => {
                self.selected = v;
                true
            },
            _ => false,
        }
    }

    /// The answer as text.
    pub open spec fn spec_response(&self) -> Seq<char> {
        listing(
            debug_texts(marked(texts(self.options@), self.selected@, self.options@.len() as int)),
        )
    }

    /// The answer as text: the marked options, each as its `Debug` formatting, between
    /// square brackets.
    pub fn response(&self) -> (r: String)
        ensures
            r@ == self.spec_response(),
    {
        let chosen = marked_options(&self.options, &self.selected);
        let shown = quoted_all(&chosen);
        listed(&shown)
    }

    pub fn summary(&self) -> (r: Summary)
        ensures
            r.id@ == self.id@,
            r.description@ == self.description@,
            texts(r.options@) == texts(self.options@),
            r.selection@ == self.spec_response(),
    {
        Summary {
            id: self.id(),
            description: self.description(),
            options: self.options(),
            selection: self.response(),
        }
    }
}

impl StdQuestion {
    /// A question with one answer out of the given options.
    pub fn single_choice(id: &str, description: &str, options: &[&str]) -> (r: Self)
        ensures
            r is SingleChoice,
            r->SingleChoice_0.id@ == id@,
            r->SingleChoice_0.description@ == description@,
            r->SingleChoice_0.selected is None,
            r->SingleChoice_0.options@.len() == options@.len(),
            forall|i: int|
                0 <= i < options@.len() ==> (#[trigger] r->SingleChoice_0.options@[i])@
                    == options@[i]@,
    {
        StdQuestion::SingleChoice(
            SingleChoice {
                id: String::from_str(id),
                description: String::from_str(description),
                options: owned(options),
                selected: None,
            },
        )
    }

    /// A question with any number of answers out of the given options.
    pub fn multi_choice(id: &str, description: &str, options: &[&str]) -> (r: Self)
        ensures
            r is MultiChoice,
            r->MultiChoice_0.id@ == id@,
            r->MultiChoice_0.description@ == description@,
            r->MultiChoice_0.selected@ == Seq::new(options@.len(), |i: int| false),
            r->MultiChoice_0.options@.len() == options@.len(),
            forall|i: int|
                0 <= i < options@.len() ==> (#[trigger] r->MultiChoice_0.options@[i])@
                    == options@[i]@,
    {
        let mut selected: Vec<bool> = Vec::new();
        let mut i: usize = 0;
        while i < options.len()
            invariant
                i <= options@.len(),
                selected@.len() == i,
                forall|j: int| 0 <= j < i ==> !selected@[j],
            decreases options@.len() - i,
        {
            selected.push(false);
            i += 1;
        }
        assert(selected@ =~= Seq::new(options@.len(), |i: int| false));
        StdQuestion::MultiChoice(
            MultiChoice {
                id: String::from_str(id),
                description: String::from_str(description),
                options: owned(options),
                selected,
            },
        )
    }

    pub fn id(&self) -> (r: String)
        ensures
            r@ == match self {
                StdQuestion::SingleChoice(q) => q.id@,
                StdQuestion::MultiChoice(q) => q.id@,
            },
    {
        match self {
            StdQuestion::SingleChoice(q) => q.id(),
            StdQuestion::MultiChoice(q) => q.id(),
        }
    }

    pub fn description(&self) -> (r: String)
        ensures
            r@ == match self {
                StdQuestion::SingleChoice(q) => q.description@,
                StdQuestion::MultiChoice(q) => q.description@,
            },
    {
        match self {
            StdQuestion::SingleChoice(q) => q.description(),
            StdQuestion::MultiChoice(q) => q.description(),
        }
    }

    pub fn options(&self) -> (r: Vec<String>)
        ensures
            texts(r@) == match self {
                StdQuestion::SingleChoice(q) => texts(q.options@),
                StdQuestion::MultiChoice(q) => texts(q.options@),
            },
    {
        match self {
            StdQuestion::SingleChoice(q) => q.options(),
            StdQuestion::MultiChoice(q) => q.options(),
        }
    }

    /// Takes an answer; says whether it is one for a question of this kind. Any other
    /// leaves the question as it was.
    pub fn update(&mut self, value: StdAnswer) -> (r: bool)
        ensures
            r == match *old(self) {
                StdQuestion::SingleChoice(_) => value is SingleChoice,
                StdQuestion::MultiChoice(_) => value is MultiChoice,
            },
            !r ==> *final(self) == *old(self),
            r ==> match (*old(self), *final(self)) {
                (StdQuestion::SingleChoice(a), StdQuestion::SingleChoice(b)) => b.selected
                    == value->SingleChoice_0 && b.id == a.id && b.description == a.description
                    && b.options == a.options,
                (StdQuestion::MultiChoice(a), StdQuestion::MultiChoice(b)) => b.selected
                    == value->MultiChoice_0 && b.id == a.id && b.description == a.description
                    && b.options == a.options,
                _ => false,
            },
    {
        match self {
            StdQuestion::SingleChoice(q) => q.update(value),
            StdQuestion::MultiChoice(q) => q.update(value),
        }
    }

    /// The answer as text.
    pub fn response(&self) -> (r: String)
        ensures
            r@ == match self {
                StdQuestion::SingleChoice(q) => q.spec_response(),
                StdQuestion::MultiChoice(q) => q.spec_response(),
            },
    {
        match self {
            StdQuestion::SingleChoice(q) => q.response(),
            StdQuestion::MultiChoice(q) => q.response(),
        }
    }

    pub fn summary(&self) -> (r: Summary)
        ensures
            r.id@ == match self {
                StdQuestion::SingleChoice(q) => q.id@,
                StdQuestion::MultiChoice(q) => q.id@,
            },
            r.selection@ == match self {
                StdQuestion::SingleChoice(q) => q.spec_response(),
                StdQuestion::MultiChoice(q) => q.spec_response(),
            },
            r.description@ == match self {
                StdQuestion::SingleChoice(q) => q.description@,
                StdQuestion::MultiChoice(q) => q.description@,
            },
            texts(r.options@) == match self {
                StdQuestion::SingleChoice(q) => texts(q.options@),
                StdQuestion::MultiChoice(q) => texts(q.options@),
            },
    {
        match self {
            StdQuestion::SingleChoice(q) => q.summary(),
            StdQuestion::MultiChoice(q) => q.summary(),
        }
    }
}

} // verus!
