use crate::question::StdQuestion;
use crate::text::same;
use vstd::prelude::*;

verus! {

/// One of the three blocks of the trisyllabic listening task.
#[derive(Debug)]
pub struct TrisyllabicBlock {
    pub id: String,
}

/// Whether `id` names one of the three blocks.
pub open spec fn is_block(id: Seq<char>) -> bool {
    id == "1"@ || id == "2"@ || id == "3"@
}

impl TrisyllabicBlock {
    /// Whether `id` names one of the three blocks.
    pub fn known(id: &str) -> (r: bool)
        ensures
            r == is_block(id@),
    {
        same(id, "1") || same(id, "2") || same(id, "3")
    }

    /// The name of the block, if it is one of the three.
    pub fn id(&self) -> (r: Option<String>)
        ensures
            r is Some == is_block(self.id@),
            r is Some ==> r->0@ == self.id@,
    {
        if TrisyllabicBlock::known(self.id.as_str()) {
            Some(self.id.clone())
        } else {
            None
        }
    }

    /// The title of the block, if it is one of the three.
    pub fn title(&self) -> (r: Option<String>)
        ensures
            r is Some == is_block(self.id@),
            r is Some ==> r->0@ == if self.id@ == "1"@ {
                "1st Block"@
            } else if self.id@ == "2"@ {
                "2nd Block"@
            } else {
                "3rd Block"@
            },
    {
        if same(self.id.as_str(), "1") {
            Some(String::from_str("1st Block"))
        } else if same(self.id.as_str(), "2") {
            Some(String::from_str("2nd Block"))
        } else if same(self.id.as_str(), "3") {
            Some(String::from_str("3rd Block"))
        } else {
            None
        }
    }

    /// What the participant is asked to do.
    pub fn description(&self) -> (r: String)
        ensures
            r@ == "Press the button every time you hear the word OBJECTIVE."@,
    {
        String::from_str("Press the button every time you hear the word OBJECTIVE.")
    }

    /// The file that holds the sound of the block `id`, if it is one of the three.
    pub fn audio_src(id: &str) -> (r: Option<String>)
        ensures
            r is Some == is_block(id@),
            r is Some ==> r->0@ == "block"@ + id@ + ".wav"@,
    {
        if TrisyllabicBlock::known(id) {
            let mut r = String::from_str("block");
            r.append(id);
            r.append(".wav");
            Some(r)
        } else {
            None
        }
    }

    /// The words that the questions after the block `id` offer.
    pub open spec fn words(id: Seq<char>) -> Seq<Seq<char>> {
        if id == "1"@ {
            seq!["Salary"@, "Limited"@, "Governor"@]
        } else if id == "2"@ {
            seq!["Visitor"@, "Prominent"@, "Relative"@]
        } else {
            seq!["Pacific"@, "Traveler"@, "Reception"@]
        }
    }

    /// The two questions asked after the block `id`, if it is one of the three: which of
    /// three words was not spoken, once with one answer and once with any number.
    pub fn questionnaire(id: &str) -> (r: Option<Vec<StdQuestion>>)
        ensures
            r is Some == is_block(id@),
            r is Some ==> {
                &&& r->0@.len() == 2
                &&& r->0@[0] is SingleChoice
                &&& r->0@[1] is MultiChoice
                &&& r->0@[0]->SingleChoice_0.id@ == "Q"@ + id@
                &&& r->0@[1]->MultiChoice_0.id@ == "Q"@ + id@
                &&& crate::idset::texts(r->0@[0]->SingleChoice_0.options@)
                    == TrisyllabicBlock::words(id@)
                &&& crate::idset::texts(r->0@[1]->MultiChoice_0.options@)
                    == TrisyllabicBlock::words(id@)
                &&& r->0@[0]->SingleChoice_0.description@
                    == "Which of the following words were NOT spoken so far?"@
                &&& r->0@[1]->MultiChoice_0.description@
                    == "Which of the following words were NOT spoken so far?"@
            },
    {
        if !TrisyllabicBlock::known(id) {
            return None;
        }
        let mut name = String::from_str("Q");
        name.append(id);
        let words: [&str; 3] = if same(id, "1") {
            ["Salary", "Limited", "Governor"]
        } else if same(id, "2") {
            ["Visitor", "Prominent", "Relative"]
        } else {
            ["Pacific", "Traveler", "Reception"]
        };
        let ask = "Which of the following words were NOT spoken so far?";
        let first = StdQuestion::single_choice(name.as_str(), ask, words.as_slice());
        let second = StdQuestion::multi_choice(name.as_str(), ask, words.as_slice());
        assert(crate::idset::texts(first->SingleChoice_0.options@) =~= TrisyllabicBlock::words(
            id@,
        ));
        assert(crate::idset::texts(second->MultiChoice_0.options@) =~= TrisyllabicBlock::words(
            id@,
        ));
        let mut r: Vec<StdQuestion> = Vec::new();
        r.push(first);
        r.push(second);
        Some(r)
    }
}

} // verus!
