//! The dictionary entry: a searchable description paired with the emoji
//! it names.

use vstd::prelude::*;
use vstd::string::StrSliceExecFns;
use vstd::string::StringExecFns;

verus! {

/// The mathematical value of an [`EmojiPair`]: both fields as character
/// sequences.
#[verifier::ext_equal]
pub ghost struct PairView {
    pub description: Seq<char>,
    pub emoji: Seq<char>,
}

/// One dictionary entry. The description is the search key; the emoji is
/// the value handed out on a hit.
pub struct EmojiPair {
    pub description: String,
    pub emoji: String,
}

impl View for EmojiPair {
    type V = PairView;

    open spec fn view(&self) -> PairView {
        PairView { description: self.description@, emoji: self.emoji@ }
    }
}

/// The one-line rendering of a pair: the description, enough tabs to
/// column-align the emojis, then the emoji. Descriptions of sixteen or
/// more characters get one tab, of eight or more two, shorter ones three.
pub open spec fn spec_display_line(p: PairView) -> Seq<char> {
    if p.description.len() >= 16 {
        p.description + seq!['\t'] + p.emoji
    } else if p.description.len() >= 8 {
        p.description + seq!['\t', '\t'] + p.emoji
    } else {
        p.description + seq!['\t', '\t', '\t'] + p.emoji
    }
}

impl EmojiPair {
    /// An owned copy with the same contents.
    pub fn duplicate(&self) -> (r: EmojiPair)
        ensures
            r@ == self@,
    {
        EmojiPair { description: self.description.clone(), emoji: self.emoji.clone() }
    }

    /// The line shown for this pair in a suggestion list, emoji
    /// column-aligned by tab stops.
    pub fn display_line(&self) -> (r: String)
        ensures
            r@ == spec_display_line(self@),
    {
        let len = self.description.as_str().unicode_len();
        let mut r = self.description.clone();
        if len >= 16 {
            r.append("\t");
            proof {
                reveal_strlit("\t");
                assert("\t"@ =~= seq!['\t']);
            }
        } else if len >= 8 {
            r.append("\t\t");
            proof {
                reveal_strlit("\t\t");
                assert("\t\t"@ =~= seq!['\t', '\t']);
            }
        } else {
            r.append("\t\t\t");
            proof {
                reveal_strlit("\t\t\t");
                assert("\t\t\t"@ =~= seq!['\t', '\t', '\t']);
            }
        }
        r.append(self.emoji.as_str());
        r
    }
}

} // verus!
