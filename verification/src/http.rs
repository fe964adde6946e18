//! The web page that shows the state of affairs.
use crate::strings;
use crate::text;
use vstd::prelude::*;

verus! {

/// The address of the web page.
pub open spec fn home_address(hostname: Seq<char>, port: u16) -> Seq<char> {
    "http://"@ + hostname + ":"@ + strings::decimal(port as int)
}

/// The web server, by the name of its host and the port that it listens on.
#[derive(Debug)]
pub struct Ui {
    pub hostname: String,
    pub port: u16,
}

impl Ui {
    pub fn new(hostname: String, port: u16) -> (r: Self)
        ensures
            r.hostname@ == hostname@,
            r.port == port,
    {
        Ui { hostname, port }
    }

    /// The address of the web page.
    pub fn home_url(&self) -> (r: String)
        ensures
            r@ == home_address(self.hostname@, self.port),
    {
        let mut out: String = String::from_str("http://");
        out.append(self.hostname.as_str());
        out.append(":");
        out.append(strings::decimal_text(self.port as u64).as_str());
        out
    }

    /// What the addresses of results start with.
    pub fn result_url_base(&self) -> (r: String)
        ensures
            r@ == home_address(self.hostname@, self.port) + "/results"@,
    {
        let mut out: String = self.home_url();
        out.append("/results");
        out
    }
}

/// The element of the page that is replaced whenever there is an update.
pub open spec fn log_element(log: Seq<char>) -> Seq<char> {
    "<pre id=\"log_buf\">"@ + log + "</pre>"@
}

/// The page, which starts up with the current log and connects to the updates
/// socket.
pub open spec fn page_text(
    htmx_js: Seq<char>,
    htmx_ws_js: Seq<char>,
    css: Seq<char>,
    title: Seq<char>,
    log: Seq<char>,
) -> Seq<char> {
    "<!DOCTYPE html>\n    <html lang=\"en\">\n    <head>\n        <meta charset=\"utf-8\">\n        <script>"@
        + htmx_js + "</script>\n        <script>"@ + htmx_ws_js
        + "</script>\n        <style>"@ + css + "</style>\n        <title>"@ + title
        + "</title>\n    </head>\n    <body>\n        <div hx-ext=\"ws\" ws-connect=\"/updates\">\n            "@
        + log_element(log) + "\n        </div>\n    </body>\n</html>\n"@
}

/// What the web page shows.
#[derive(Debug)]
pub struct UiState {
    // The rendered log & test result buffer with links etc.
    log_html_pre: String,
    title: String,
}

impl UiState {
    /// The log that is shown.
    pub closed spec fn log(&self) -> Seq<char> {
        self.log_html_pre@
    }

    /// The title of the page.
    pub closed spec fn page_title(&self) -> Seq<char> {
        self.title@
    }

    pub fn new(title: String) -> (r: Self)
        ensures
            r.log() == "[starting up...]"@,
            r.page_title() == title@,
    {
        UiState { log_html_pre: String::from_str("[starting up...]"), title }
    }

    /// Shows another log.
    pub fn set_log_buf(&mut self, html: String)
        ensures
            final(self).log() == html@,
            final(self).page_title() == old(self).page_title(),
    {
        self.log_html_pre = html;
    }

    /// What is sent to an open page when the log has changed.
    pub fn update_message(&self) -> (r: String)
        ensures
            r@ == log_element(self.log()),
    {
        let mut out: String = String::from_str("<pre id=\"log_buf\">");
        out.append(self.log_html_pre.as_str());
        out.append("</pre>");
        out
    }

    /// The page, with the scripts that it needs.
    pub fn home(&self, htmx_js: &str, htmx_ws_js: &str) -> (r: String)
        ensures
            r@ == page_text(htmx_js@, htmx_ws_js@, text::CSS@, self.page_title(), self.log()),
    {
        let mut out: String = String::from_str(
            "<!DOCTYPE html>\n    <html lang=\"en\">\n    <head>\n        <meta charset=\"utf-8\">\n        <script>",
        );
        out.append(htmx_js);
        out.append("</script>\n        <script>");
        out.append(htmx_ws_js);
        out.append("</script>\n        <style>");
        out.append(text::CSS);
        out.append("</style>\n        <title>");
        out.append(self.title.as_str());
        out.append(
            "</title>\n    </head>\n    <body>\n        <div hx-ext=\"ws\" ws-connect=\"/updates\">\n            ",
        );
        out.append(self.update_message().as_str());
        out.append("\n        </div>\n    </body>\n</html>\n");
        out
    }
}

/// The address of the web page names the host and the port.
pub proof fn lemma_home_address(hostname: Seq<char>, port: u16)
    ensures
        ("http://"@ + hostname).is_prefix_of(home_address(hostname, port)),
        crate::job::ends_with(home_address(hostname, port), ":"@ + strings::decimal(port as int)),
{
    let s = home_address(hostname, port);
    let front = "http://"@ + hostname;
    let end = ":"@ + strings::decimal(port as int);
    assert(s.take(front.len() as int) =~= front);
    assert(s.skip(s.len() - end.len()) =~= end);
}

/// The page has its scripts, its styles and its title in it, and the element
/// that updates replace, with the log.
pub proof fn lemma_page_is_complete(
    htmx_js: Seq<char>,
    htmx_ws_js: Seq<char>,
    css: Seq<char>,
    title: Seq<char>,
    log: Seq<char>,
)
    ensures
        ({
            let page = page_text(htmx_js, htmx_ws_js, css, title, log);
            &&& strings::has_part(page, htmx_js)
            &&& strings::has_part(page, htmx_ws_js)
            &&& strings::has_part(page, css)
            &&& strings::has_part(page, title + "</title>"@)
            &&& strings::has_part(page, log_element(log))
            &&& strings::has_part(log_element(log), log)
            &&& "<pre id=\"log_buf\">"@.is_prefix_of(log_element(log))
        }),
{
    let page = page_text(htmx_js, htmx_ws_js, css, title, log);
    let a =
        "<!DOCTYPE html>\n    <html lang=\"en\">\n    <head>\n        <meta charset=\"utf-8\">\n        <script>"@;
    let b = a + htmx_js + "</script>\n        <script>"@;
    let c = b + htmx_ws_js + "</script>\n        <style>"@;
    let d = c + css + "</style>\n        <title>"@;
    let e = d + title
        + "</title>\n    </head>\n    <body>\n        <div hx-ext=\"ws\" ws-connect=\"/updates\">\n            "@;
    reveal_strlit("</title>");
    reveal_strlit(
        "</title>\n    </head>\n    <body>\n        <div hx-ext=\"ws\" ws-connect=\"/updates\">\n            ",
    );
    let m = a.len() as int;
    assert(page.subrange(m, m + htmx_js.len()) =~= htmx_js);
    let m = b.len() as int;
    assert(page.subrange(m, m + htmx_ws_js.len()) =~= htmx_ws_js);
    let m = c.len() as int;
    assert(page.subrange(m, m + css.len()) =~= css);
    let m = d.len() as int;
    let named = title + "</title>"@;
    assert(page.subrange(m, m + named.len()) =~= named);
    let m = e.len() as int;
    let element = log_element(log);
    assert(page.subrange(m, m + element.len()) =~= element);
    let m = "<pre id=\"log_buf\">"@.len() as int;
    assert(element.subrange(m, m + log.len()) =~= log);
    assert(element.take(m) =~= "<pre id=\"log_buf\">"@);
}

} // verus!
