//! Image references: a repository and, where there is one, a tag.

use vstd::prelude::*;

use crate::text;
use crate::text::characters;

verus! {

/// Where the last path segment of an image reference begins: after its last `/`.
pub open spec fn segment_start(image: Seq<char>) -> int
    decreases image.len(),
{
    if image.len() == 0 || image.last() == '/' {
        image.len() as int
    } else {
        segment_start(image.drop_last())
    }
}

/// The position of the last colon of a text.
pub open spec fn last_colon(text: Seq<char>) -> Option<int>
    decreases text.len(),
{
    if text.len() == 0 {
        None
    } else if text.last() == ':' {
        Some(text.len() - 1)
    } else {
        last_colon(text.drop_last())
    }
}

/// The position of the colon that sets off the tag: the last one in the last path segment.
/// A registry's port stands before a `/`, so its colon is not one; nor is the colon of a
/// digest (`name@sha256:...`), as a reference pinned by digest is not of the form `name:tag`.
pub open spec fn tag_colon(image: Seq<char>) -> Option<int> {
    let start = segment_start(image);
    match last_colon(image.skip(start)) {
        Some(i) => if image.skip(start).take(i).contains('@') {
            None
        } else {
            Some(start + i)
        },
        None => None,
    }
}

/// The repository of an image reference: all of it that stands before the tag.
pub open spec fn image_repository(image: Seq<char>) -> Seq<char> {
    match tag_colon(image) {
        Some(i) => image.take(i),
        None => image,
    }
}

/// The tag of an image reference.
pub open spec fn image_tag(image: Seq<char>) -> Option<Seq<char>> {
    match tag_colon(image) {
        Some(i) => Some(image.skip(i + 1)),
        None => None,
    }
}

/// `segment_start` is the end of the text or just after its last `/`.
proof fn lemma_segment_start(image: Seq<char>)
    ensures
        0 <= segment_start(image) <= image.len(),
        segment_start(image) > 0 ==> image[segment_start(image) - 1] == '/',
        forall|j: int| segment_start(image) <= j < image.len() ==> image[j] != '/',
    decreases image.len(),
{
    if image.len() > 0 && image.last() != '/' {
        lemma_segment_start(image.drop_last());
        assert forall|j: int| segment_start(image) <= j < image.len() implies image[j] != '/' by {
            if j < image.len() - 1 {
                assert(image.drop_last()[j] == image[j]);
            }
        }
    }
}

/// `last_colon` finds a colon after which there is none, if there is any.
proof fn lemma_last_colon(text: Seq<char>)
    ensures
        match last_colon(text) {
            Some(i) => 0 <= i < text.len() && text[i] == ':' && forall|j: int|
                i < j < text.len() ==> text[j] != ':',
            None => forall|j: int| 0 <= j < text.len() ==> text[j] != ':',
        },
    decreases text.len(),
{
    if text.len() > 0 && text.last() != ':' {
        let rest = text.drop_last();
        lemma_last_colon(rest);
        assert forall|j: int| 0 <= j < text.len() && text[j] == ':' implies rest[j] == ':' by {}
    }
}

/// Where the last path segment of an image reference begins.
fn find_segment_start(chars: &Vec<char>) -> (r: usize)
    ensures
        r == segment_start(chars@),
        r <= chars@.len(),
{
    let mut n: usize = chars.len();
    assert(chars@.take(n as int) == chars@);
    while n > 0 && chars[n - 1] != '/'
        invariant
            n <= chars@.len(),
            segment_start(chars@) == segment_start(chars@.take(n as int)),
        decreases n,
    {
        assert(chars@.take(n as int).drop_last() == chars@.take(n - 1));
        n -= 1;
    }
    n
}

/// The position of the colon that sets off the tag.
fn find_tag_colon(chars: &Vec<char>) -> (r: Option<usize>)
    ensures
        match r {
            Some(i) => tag_colon(chars@) == Some(i as int) && i < chars@.len(),
            None => tag_colon(chars@) is None,
        },
{
    let start: usize = find_segment_start(chars);
    let ghost segment = chars@.skip(start as int);
    let mut n: usize = chars.len();
    assert(segment.take(n - start) == segment);
    while n > start && chars[n - 1] != ':'
        invariant
            start <= n <= chars@.len(),
            segment == chars@.skip(start as int),
            last_colon(segment) == last_colon(segment.take(n - start)),
        decreases n,
    {
        assert(segment.take(n - start).drop_last() == segment.take(n - 1 - start));
        n -= 1;
    }
    if n == start {
        return None;
    }
    let colon: usize = n - 1;
    let ghost name = segment.take(colon - start);
    assert(segment.take(n - start).last() == chars@[colon as int]);
    let mut k: usize = start;
    while k < colon
        invariant
            start <= k <= colon < chars@.len(),
            start == segment_start(chars@),
            last_colon(chars@.skip(start as int)) == Some(colon - start),
            name == chars@.skip(start as int).take(colon - start),
            forall|j: int| 0 <= j < k - start ==> name[j] != '@',
        decreases colon - k,
    {
        assert(name[k - start] == chars@[k as int]);
        if chars[k] == '@' {
            assert(name.contains('@'));
            return None;
        }
        k += 1;
    }
    Some(colon)
}

/// Splits an image reference into its repository and its tag.
pub fn parse_image(image: &str) -> (r: (String, Option<String>))
    ensures
        r.0@ == image_repository(image@),
        text::optional_text(r.1) == image_tag(image@),
{
    let chars = characters(image);
    match find_tag_colon(&chars) {
        Some(i) => {
            let len: usize = chars.len();
            (
                image.substring_char(0, i).to_owned(),
                Some(image.substring_char(i + 1, len).to_owned()),
            )
        },
        None => (image.to_owned(), None),
    }
}

/// Nothing of an image reference is lost: repository, colon and tag make it up again, and
/// one without a tag is all repository.
pub proof fn law_image_parts_make_up_the_image(image: Seq<char>)
    ensures
        match image_tag(image) {
            Some(tag) => image == image_repository(image) + seq![':'] + tag,
            None => image == image_repository(image),
        },
{
    let start = segment_start(image);
    lemma_segment_start(image);
    lemma_last_colon(image.skip(start));
    if let Some(i) = tag_colon(image) {
        assert(image.skip(start)[i - start] == image[i]);
        assert(image == image.take(i) + seq![':'] + image.skip(i + 1));
    }
}

/// A tag is a tag of the last path segment only: it holds neither a `/` nor a further `:`, so a
/// registry's port is never taken for one.
pub proof fn law_tag_stands_in_the_last_segment(image: Seq<char>)
    ensures
        image_tag(image) matches Some(tag) ==> !tag.contains('/') && !tag.contains(':'),
{
    let start = segment_start(image);
    lemma_segment_start(image);
    lemma_last_colon(image.skip(start));
    if let Some(i) = tag_colon(image) {
        let tag = image.skip(i + 1);
        assert forall|j: int| 0 <= j < tag.len() implies tag[j] != '/' && tag[j] != ':' by {
            assert(tag[j] == image[i + 1 + j]);
            assert(image.skip(start)[i + 1 + j - start] == image[i + 1 + j]);
        }
    }
}

/// A reference of the form `name:tag` splits at that colon, whatever registry and path
/// `name` begins with.
pub proof fn law_name_and_tag_split(name: Seq<char>, tag: Seq<char>)
    requires
        !tag.contains('/'),
        !tag.contains(':'),
        !name.skip(segment_start(name)).contains('@'),
    ensures
        image_repository(name + seq![':'] + tag) == name,
        image_tag(name + seq![':'] + tag) == Some(tag),
{
    let image = name + seq![':'] + tag;
    let start = segment_start(image);
    let segment = image.skip(start);
    let c = name.len() as int;
    lemma_segment_start(image);
    lemma_last_colon(segment);
    assert(image[c] == ':');
    if start > c {
        assert(image[start - 1] == '/');
        if start - 1 > c {
            assert(tag[start - 2 - c] == '/');
        }
    }
    assert(segment[c - start] == ':');
    let i = last_colon(segment)->0;
    assert(segment[i] == image[start + i]);
    if start + i > c {
        assert(tag[start + i - c - 1] == ':');
    }
    assert(start + i == c);
    lemma_segment_start(name);
    let s = segment_start(name);
    if s > start {
        assert(image[s - 1] == name[s - 1]);
    }
    if s < start {
        assert(name[start - 1] == image[start - 1]);
    }
    assert(s == start);
    assert(segment.take(i) == name.skip(s));
    assert(image.take(c) == name);
    assert(image.skip(c + 1) == tag);
}

/// A reference pinned by digest has no tag: all of it is the repository.
pub proof fn law_digest_is_no_tag(name: Seq<char>, digest: Seq<char>)
    requires
        digest.contains(':'),
        !digest.contains('/'),
    ensures
        image_repository(name + seq!['@'] + digest) == name + seq!['@'] + digest,
        image_tag(name + seq!['@'] + digest) is None,
{
    let image = name + seq!['@'] + digest;
    let start = segment_start(image);
    let segment = image.skip(start);
    let c = name.len() as int;
    lemma_segment_start(image);
    lemma_last_colon(segment);
    assert(image[c] == '@');
    if start > c {
        assert(image[start - 1] == '/');
        if start - 1 > c {
            assert(digest[start - 2 - c] == '/');
        }
    }
    let k = choose|k: int| 0 <= k < digest.len() && digest[k] == ':';
    assert(segment[c + 1 + k - start] == ':');
    let i = last_colon(segment)->0;
    assert(i >= c + 1 + k - start);
    assert(segment.take(i)[c - start] == '@');
}

/// Whether a reference has no digest in its last path segment: whatever `@` it holds stands
/// before some `/`.
pub open spec fn without_digest(reference: Seq<char>) -> bool {
    forall|k: int|
        0 <= k < reference.len() && #[trigger] reference[k] == '@' ==> exists|m: int|
            k < m < reference.len() && #[trigger] reference[m] == '/'
}

/// Whether a reference is of the form `name:tag`.
pub open spec fn is_tagged(image: Seq<char>, name: Seq<char>, tag: Seq<char>) -> bool {
    &&& image == name + seq![':'] + tag
    &&& !tag.contains('/')
    &&& !tag.contains(':')
    &&& without_digest(name)
}

/// The repository and the tag of a reference are the name and the tag where it is of the form
/// `name:tag`, in whatever way it is; otherwise all of it is the repository, and it has no tag.
pub proof fn law_repository_and_tag(image: Seq<char>)
    ensures
        forall|name: Seq<char>, tag: Seq<char>| #[trigger]
            is_tagged(image, name, tag) <==> (image_repository(image) == name && image_tag(image)
                == Some(tag)),
        image_tag(image) is None ==> image_repository(image) == image,
{
    law_image_parts_make_up_the_image(image);
    law_tag_stands_in_the_last_segment(image);
    if let Some(tag) = image_tag(image) {
        let start = segment_start(image);
        let name = image_repository(image);
        lemma_segment_start(image);
        lemma_last_colon(image.skip(start));
        let i = tag_colon(image)->0;
        assert forall|k: int| 0 <= k < name.len() && #[trigger] name[k] == '@' implies exists|m:
            int| k < m < name.len() && #[trigger] name[m] == '/' by {
            if k >= start {
                assert(image.skip(start).take(i - start)[k - start] == '@');
            } else {
                assert(name[start - 1] == '/');
            }
        }
        assert(is_tagged(image, name, tag));
    }
    assert forall|name: Seq<char>, tag: Seq<char>| #[trigger] is_tagged(image, name, tag) implies
        image_repository(image) == name && image_tag(image) == Some(tag) by {
        let s = segment_start(name);
        lemma_segment_start(name);
        assert forall|k: int| 0 <= k < name.skip(s).len() implies name.skip(s)[k] != '@' by {
            if name.skip(s)[k] == '@' {
                assert(name[s + k] == '@');
                let m = choose|m: int| s + k < m < name.len() && #[trigger] name[m] == '/';
                assert(name[m] != '/');
            }
        }
        law_name_and_tag_split(name, tag);
    }
}

} // verus!
