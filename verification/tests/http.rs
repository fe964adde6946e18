use limmat::http::{Ui, UiState};
use limmat::text::CSS;

#[test]
fn addresses_name_host_and_port() {
    let ui = Ui::new("myhost".to_owned(), 8080);
    assert_eq!(ui.home_url(), "http://myhost:8080");
    assert_eq!(ui.result_url_base(), "http://myhost:8080/results");
}

#[test]
fn updates_replace_the_log() {
    let mut state = UiState::new("title".to_owned());
    assert_eq!(
        state.update_message(),
        "<pre id=\"log_buf\">[starting up...]</pre>"
    );
    state.set_log_buf("<pre>\nhello\n</pre>\n".to_owned());
    assert_eq!(
        state.update_message(),
        "<pre id=\"log_buf\"><pre>\nhello\n</pre>\n</pre>"
    );
}

#[test]
fn the_page_holds_scripts_title_and_log() {
    let state = UiState::new("Limmat | repo".to_owned());
    assert_eq!(
        state.home("HTMX", "WS"),
        format!(
            "<!DOCTYPE html>
    <html lang=\"en\">
    <head>
        <meta charset=\"utf-8\">
        <script>HTMX</script>
        <script>WS</script>
        <style>{CSS}</style>
        <title>Limmat | repo</title>
    </head>
    <body>
        <div hx-ext=\"ws\" ws-connect=\"/updates\">
            <pre id=\"log_buf\">[starting up...]</pre>
        </div>
    </body>
</html>
"
        )
    );
}
