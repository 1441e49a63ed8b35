//! The English stopword list.
use crate::text::{chars_of, split_words, texts, words};
use vstd::prelude::*;

verus! {

/// The English stopwords, separated by spaces.
pub const ENGLISH_STOPWORDS: &'static str = "a about above after again against all am an and any are aren't as at be because been before being below between both but by can't cannot could couldn't did didn't do does doesn't doing don't down during each few for from further had hadn't has hasn't have haven't having he he'd he'll he's her here here's hers herself him himself his how how's i i'd i'll i'm i've if in into is isn't it it's its itself just ll may me mightn't more most mustn't my myself needn't no nor not now of off on once only or other our ours ourselves out over own re s same shan't she she'd she'll she's should shouldn't so some such t than that that's the their theirs them themselves then there there's these they they'd they'll they're they've this those through to too under until up ve very was wasn't we we'd we'll we're we've were weren't what what's when when's where where's which while who who's whom why why's will with won't would wouldn't y you you'd you'll you're you've your yours yourself yourselves";

/// The English stopwords, one string each.
pub fn english_stopwords() -> (r: Vec<String>)
    ensures
        texts(r@) == words(ENGLISH_STOPWORDS@),
{
    let cs = chars_of(ENGLISH_STOPWORDS);
    split_words(&cs)
}

} // verus!
