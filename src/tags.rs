//! The element names that the feed readers dispatch on.
use vstd::prelude::*;

use crate::elements::same_text;

verus! {

pub open spec fn tag_title() -> Seq<char> {
    seq!['t', 'i', 't', 'l', 'e']
}

pub fn is_title(s: &String) -> (r: bool)
    ensures
        r == (s@ == tag_title()),
{
    proof {
        reveal_strlit("title");
        assert("title"@ =~= tag_title());
    }
    same_text(s, "title")
}

pub open spec fn tag_link() -> Seq<char> {
    seq!['l', 'i', 'n', 'k']
}

pub fn is_link(s: &String) -> (r: bool)
    ensures
        r == (s@ == tag_link()),
{
    proof {
        reveal_strlit("link");
        assert("link"@ =~= tag_link());
    }
    same_text(s, "link")
}

pub open spec fn tag_description() -> Seq<char> {
    seq!['d', 'e', 's', 'c', 'r', 'i', 'p', 't', 'i', 'o', 'n']
}

pub fn is_description(s: &String) -> (r: bool)
    ensures
        r == (s@ == tag_description()),
{
    proof {
        reveal_strlit("description");
        assert("description"@ =~= tag_description());
    }
    same_text(s, "description")
}

pub open spec fn tag_language() -> Seq<char> {
    seq!['l', 'a', 'n', 'g', 'u', 'a', 'g', 'e']
}

pub fn is_language(s: &String) -> (r: bool)
    ensures
        r == (s@ == tag_language()),
{
    proof {
        reveal_strlit("language");
        assert("language"@ =~= tag_language());
    }
    same_text(s, "language")
}

pub open spec fn tag_copyright() -> Seq<char> {
    seq!['c', 'o', 'p', 'y', 'r', 'i', 'g', 'h', 't']
}

pub fn is_copyright(s: &String) -> (r: bool)
    ensures
        r == (s@ == tag_copyright()),
{
    proof {
        reveal_strlit("copyright");
        assert("copyright"@ =~= tag_copyright());
    }
    same_text(s, "copyright")
}

pub open spec fn tag_managing_editor() -> Seq<char> {
    seq!['m', 'a', 'n', 'a', 'g', 'i', 'n', 'g', 'E', 'd', 'i', 't', 'o', 'r']
}

pub fn is_managing_editor(s: &String) -> (r: bool)
    ensures
        r == (s@ == tag_managing_editor()),
{
    proof {
        reveal_strlit("managingEditor");
        assert("managingEditor"@ =~= tag_managing_editor());
    }
    same_text(s, "managingEditor")
}

pub open spec fn tag_web_master() -> Seq<char> {
    seq!['w', 'e', 'b', 'M', 'a', 's', 't', 'e', 'r']
}

pub fn is_web_master(s: &String) -> (r: bool)
    ensures
        r == (s@ == tag_web_master()),
{
    proof {
        reveal_strlit("webMaster");
        assert("webMaster"@ =~= tag_web_master());
    }
    same_text(s, "webMaster")
}

pub open spec fn tag_pub_date() -> Seq<char> {
    seq!['p', 'u', 'b', 'D', 'a', 't', 'e']
}

pub fn is_pub_date(s: &String) -> (r: bool)
    ensures
        r == (s@ == tag_pub_date()),
{
    proof {
        reveal_strlit("pubDate");
        assert("pubDate"@ =~= tag_pub_date());
    }
    same_text(s, "pubDate")
}

pub open spec fn tag_last_build_date() -> Seq<char> {
    seq!['l', 'a', 's', 't', 'B', 'u', 'i', 'l', 'd', 'D', 'a', 't', 'e']
}

pub fn is_last_build_date(s: &String) -> (r: bool)
    ensures
        r == (s@ == tag_last_build_date()),
{
    proof {
        reveal_strlit("lastBuildDate");
        assert("lastBuildDate"@ =~= tag_last_build_date());
    }
    same_text(s, "lastBuildDate")
}

pub open spec fn tag_category() -> Seq<char> {
    seq!['c', 'a', 't', 'e', 'g', 'o', 'r', 'y']
}

pub fn is_category(s: &String) -> (r: bool)
    ensures
        r == (s@ == tag_category()),
{
    proof {
        reveal_strlit("category");
        assert("category"@ =~= tag_category());
    }
    same_text(s, "category")
}

pub open spec fn tag_generator() -> Seq<char> {
    seq!['g', 'e', 'n', 'e', 'r', 'a', 't', 'o', 'r']
}

pub fn is_generator(s: &String) -> (r: bool)
    ensures
        r == (s@ == tag_generator()),
{
    proof {
        reveal_strlit("generator");
        assert("generator"@ =~= tag_generator());
    }
    same_text(s, "generator")
}

pub open spec fn tag_docs() -> Seq<char> {
    seq!['d', 'o', 'c', 's']
}

pub fn is_docs(s: &String) -> (r: bool)
    ensures
        r == (s@ == tag_docs()),
{
    proof {
        reveal_strlit("docs");
        assert("docs"@ =~= tag_docs());
    }
    same_text(s, "docs")
}

pub open spec fn tag_cloud() -> Seq<char> {
    seq!['c', 'l', 'o', 'u', 'd']
}

pub fn is_cloud(s: &String) -> (r: bool)
    ensures
        r == (s@ == tag_cloud()),
{
    proof {
        reveal_strlit("cloud");
        assert("cloud"@ =~= tag_cloud());
    }
    same_text(s, "cloud")
}

pub open spec fn tag_rating() -> Seq<char> {
    seq!['r', 'a', 't', 'i', 'n', 'g']
}

pub fn is_rating(s: &String) -> (r: bool)
    ensures
        r == (s@ == tag_rating()),
{
    proof {
        reveal_strlit("rating");
        assert("rating"@ =~= tag_rating());
    }
    same_text(s, "rating")
}

pub open spec fn tag_item() -> Seq<char> {
    seq!['i', 't', 'e', 'm']
}

pub fn is_item(s: &String) -> (r: bool)
    ensures
        r == (s@ == tag_item()),
{
    proof {
        reveal_strlit("item");
        assert("item"@ =~= tag_item());
    }
    same_text(s, "item")
}

pub open spec fn tag_ttl() -> Seq<char> {
    seq!['t', 't', 'l']
}

pub fn is_ttl(s: &String) -> (r: bool)
    ensures
        r == (s@ == tag_ttl()),
{
    proof {
        reveal_strlit("ttl");
        assert("ttl"@ =~= tag_ttl());
    }
    same_text(s, "ttl")
}

pub open spec fn tag_image() -> Seq<char> {
    seq!['i', 'm', 'a', 'g', 'e']
}

pub fn is_image(s: &String) -> (r: bool)
    ensures
        r == (s@ == tag_image()),
{
    proof {
        reveal_strlit("image");
        assert("image"@ =~= tag_image());
    }
    same_text(s, "image")
}

pub open spec fn tag_url() -> Seq<char> {
    seq!['u', 'r', 'l']
}

pub fn is_url(s: &String) -> (r: bool)
    ensures
        r == (s@ == tag_url()),
{
    proof {
        reveal_strlit("url");
        assert("url"@ =~= tag_url());
    }
    same_text(s, "url")
}

pub open spec fn tag_width() -> Seq<char> {
    seq!['w', 'i', 'd', 't', 'h']
}

pub fn is_width(s: &String) -> (r: bool)
    ensures
        r == (s@ == tag_width()),
{
    proof {
        reveal_strlit("width");
        assert("width"@ =~= tag_width());
    }
    same_text(s, "width")
}

pub open spec fn tag_height() -> Seq<char> {
    seq!['h', 'e', 'i', 'g', 'h', 't']
}

pub fn is_height(s: &String) -> (r: bool)
    ensures
        r == (s@ == tag_height()),
{
    proof {
        reveal_strlit("height");
        assert("height"@ =~= tag_height());
    }
    same_text(s, "height")
}

pub open spec fn tag_author() -> Seq<char> {
    seq!['a', 'u', 't', 'h', 'o', 'r']
}

pub fn is_author(s: &String) -> (r: bool)
    ensures
        r == (s@ == tag_author()),
{
    proof {
        reveal_strlit("author");
        assert("author"@ =~= tag_author());
    }
    same_text(s, "author")
}

pub open spec fn tag_enclosure() -> Seq<char> {
    seq!['e', 'n', 'c', 'l', 'o', 's', 'u', 'r', 'e']
}

pub fn is_enclosure(s: &String) -> (r: bool)
    ensures
        r == (s@ == tag_enclosure()),
{
    proof {
        reveal_strlit("enclosure");
        assert("enclosure"@ =~= tag_enclosure());
    }
    same_text(s, "enclosure")
}

pub open spec fn tag_guid() -> Seq<char> {
    seq!['g', 'u', 'i', 'd']
}

pub fn is_guid(s: &String) -> (r: bool)
    ensures
        r == (s@ == tag_guid()),
{
    proof {
        reveal_strlit("guid");
        assert("guid"@ =~= tag_guid());
    }
    same_text(s, "guid")
}

pub open spec fn tag_source() -> Seq<char> {
    seq!['s', 'o', 'u', 'r', 'c', 'e']
}

pub fn is_source(s: &String) -> (r: bool)
    ensures
        r == (s@ == tag_source()),
{
    proof {
        reveal_strlit("source");
        assert("source"@ =~= tag_source());
    }
    same_text(s, "source")
}

pub open spec fn tag_content_encoded() -> Seq<char> {
    seq!['c', 'o', 'n', 't', 'e', 'n', 't', ':', 'e', 'n', 'c', 'o', 'd', 'e', 'd']
}

pub fn is_content_encoded(s: &String) -> (r: bool)
    ensures
        r == (s@ == tag_content_encoded()),
{
    proof {
        reveal_strlit("content:encoded");
        assert("content:encoded"@ =~= tag_content_encoded());
    }
    same_text(s, "content:encoded")
}

pub open spec fn tag_media() -> Seq<char> {
    seq!['m', 'e', 'd', 'i', 'a']
}

pub fn is_media(s: &String) -> (r: bool)
    ensures
        r == (s@ == tag_media()),
{
    proof {
        reveal_strlit("media");
        assert("media"@ =~= tag_media());
    }
    same_text(s, "media")
}

pub open spec fn tag_name() -> Seq<char> {
    seq!['n', 'a', 'm', 'e']
}

pub fn is_name(s: &String) -> (r: bool)
    ensures
        r == (s@ == tag_name()),
{
    proof {
        reveal_strlit("name");
        assert("name"@ =~= tag_name());
    }
    same_text(s, "name")
}

pub open spec fn tag_uri() -> Seq<char> {
    seq!['u', 'r', 'i']
}

pub fn is_uri(s: &String) -> (r: bool)
    ensures
        r == (s@ == tag_uri()),
{
    proof {
        reveal_strlit("uri");
        assert("uri"@ =~= tag_uri());
    }
    same_text(s, "uri")
}

pub open spec fn tag_email() -> Seq<char> {
    seq!['e', 'm', 'a', 'i', 'l']
}

pub fn is_email(s: &String) -> (r: bool)
    ensures
        r == (s@ == tag_email()),
{
    proof {
        reveal_strlit("email");
        assert("email"@ =~= tag_email());
    }
    same_text(s, "email")
}

pub open spec fn tag_content() -> Seq<char> {
    seq!['c', 'o', 'n', 't', 'e', 'n', 't']
}

pub fn is_content(s: &String) -> (r: bool)
    ensures
        r == (s@ == tag_content()),
{
    proof {
        reveal_strlit("content");
        assert("content"@ =~= tag_content());
    }
    same_text(s, "content")
}

pub open spec fn tag_contributor() -> Seq<char> {
    seq!['c', 'o', 'n', 't', 'r', 'i', 'b', 'u', 't', 'o', 'r']
}

pub fn is_contributor(s: &String) -> (r: bool)
    ensures
        r == (s@ == tag_contributor()),
{
    proof {
        reveal_strlit("contributor");
        assert("contributor"@ =~= tag_contributor());
    }
    same_text(s, "contributor")
}

pub open spec fn tag_id() -> Seq<char> {
    seq!['i', 'd']
}

pub fn is_id(s: &String) -> (r: bool)
    ensures
        r == (s@ == tag_id()),
{
    proof {
        reveal_strlit("id");
        assert("id"@ =~= tag_id());
    }
    same_text(s, "id")
}

pub open spec fn tag_published() -> Seq<char> {
    seq!['p', 'u', 'b', 'l', 'i', 's', 'h', 'e', 'd']
}

pub fn is_published(s: &String) -> (r: bool)
    ensures
        r == (s@ == tag_published()),
{
    proof {
        reveal_strlit("published");
        assert("published"@ =~= tag_published());
    }
    same_text(s, "published")
}

pub open spec fn tag_rights() -> Seq<char> {
    seq!['r', 'i', 'g', 'h', 't', 's']
}

pub fn is_rights(s: &String) -> (r: bool)
    ensures
        r == (s@ == tag_rights()),
{
    proof {
        reveal_strlit("rights");
        assert("rights"@ =~= tag_rights());
    }
    same_text(s, "rights")
}

pub open spec fn tag_summary() -> Seq<char> {
    seq!['s', 'u', 'm', 'm', 'a', 'r', 'y']
}

pub fn is_summary(s: &String) -> (r: bool)
    ensures
        r == (s@ == tag_summary()),
{
    proof {
        reveal_strlit("summary");
        assert("summary"@ =~= tag_summary());
    }
    same_text(s, "summary")
}

pub open spec fn tag_updated() -> Seq<char> {
    seq!['u', 'p', 'd', 'a', 't', 'e', 'd']
}

pub fn is_updated(s: &String) -> (r: bool)
    ensures
        r == (s@ == tag_updated()),
{
    proof {
        reveal_strlit("updated");
        assert("updated"@ =~= tag_updated());
    }
    same_text(s, "updated")
}

pub open spec fn tag_icon() -> Seq<char> {
    seq!['i', 'c', 'o', 'n']
}

pub fn is_icon(s: &String) -> (r: bool)
    ensures
        r == (s@ == tag_icon()),
{
    proof {
        reveal_strlit("icon");
        assert("icon"@ =~= tag_icon());
    }
    same_text(s, "icon")
}

pub open spec fn tag_logo() -> Seq<char> {
    seq!['l', 'o', 'g', 'o']
}

pub fn is_logo(s: &String) -> (r: bool)
    ensures
        r == (s@ == tag_logo()),
{
    proof {
        reveal_strlit("logo");
        assert("logo"@ =~= tag_logo());
    }
    same_text(s, "logo")
}

pub open spec fn tag_subtitle() -> Seq<char> {
    seq!['s', 'u', 'b', 't', 'i', 't', 'l', 'e']
}

pub fn is_subtitle(s: &String) -> (r: bool)
    ensures
        r == (s@ == tag_subtitle()),
{
    proof {
        reveal_strlit("subtitle");
        assert("subtitle"@ =~= tag_subtitle());
    }
    same_text(s, "subtitle")
}

pub open spec fn tag_entry() -> Seq<char> {
    seq!['e', 'n', 't', 'r', 'y']
}

pub fn is_entry(s: &String) -> (r: bool)
    ensures
        r == (s@ == tag_entry()),
{
    proof {
        reveal_strlit("entry");
        assert("entry"@ =~= tag_entry());
    }
    same_text(s, "entry")
}

pub open spec fn tag_feed() -> Seq<char> {
    seq!['f', 'e', 'e', 'd']
}

pub fn is_feed(s: &String) -> (r: bool)
    ensures
        r == (s@ == tag_feed()),
{
    proof {
        reveal_strlit("feed");
        assert("feed"@ =~= tag_feed());
    }
    same_text(s, "feed")
}

pub open spec fn tag_channel() -> Seq<char> {
    seq!['c', 'h', 'a', 'n', 'n', 'e', 'l']
}

pub fn is_channel(s: &String) -> (r: bool)
    ensures
        r == (s@ == tag_channel()),
{
    proof {
        reveal_strlit("channel");
        assert("channel"@ =~= tag_channel());
    }
    same_text(s, "channel")
}

pub open spec fn tag_p() -> Seq<char> {
    seq!['p']
}

pub fn is_p(s: &String) -> (r: bool)
    ensures
        r == (s@ == tag_p()),
{
    proof {
        reveal_strlit("p");
        assert("p"@ =~= tag_p());
    }
    same_text(s, "p")
}

pub open spec fn tag_version() -> Seq<char> {
    seq!['v', 'e', 'r', 's', 'i', 'o', 'n']
}

pub fn is_version(s: &String) -> (r: bool)
    ensures
        r == (s@ == tag_version()),
{
    proof {
        reveal_strlit("version");
        assert("version"@ =~= tag_version());
    }
    same_text(s, "version")
}

pub open spec fn tag_rss() -> Seq<char> {
    seq!['r', 's', 's']
}

pub fn is_rss(s: &String) -> (r: bool)
    ensures
        r == (s@ == tag_rss()),
{
    proof {
        reveal_strlit("rss");
        assert("rss"@ =~= tag_rss());
    }
    same_text(s, "rss")
}

pub open spec fn tag_a() -> Seq<char> {
    seq!['a']
}

pub fn is_a(s: &String) -> (r: bool)
    ensures
        r == (s@ == tag_a()),
{
    proof {
        reveal_strlit("a");
        assert("a"@ =~= tag_a());
    }
    same_text(s, "a")
}

pub open spec fn tag_br() -> Seq<char> {
    seq!['b', 'r']
}

pub fn is_br(s: &String) -> (r: bool)
    ensures
        r == (s@ == tag_br()),
{
    proof {
        reveal_strlit("br");
        assert("br"@ =~= tag_br());
    }
    same_text(s, "br")
}

pub open spec fn tag_span() -> Seq<char> {
    seq!['s', 'p', 'a', 'n']
}

pub fn is_span(s: &String) -> (r: bool)
    ensures
        r == (s@ == tag_span()),
{
    proof {
        reveal_strlit("span");
        assert("span"@ =~= tag_span());
    }
    same_text(s, "span")
}

} // verus!
