//! Tests of the page template renderer.

use cookie_hunt::html::render_header_from_template;

#[test]
fn template_wraps_content_unchanged() {
    let out = render_header_from_template("<h1>Hello!</h1>");
    assert_eq!(
        out,
        "<html>\n  <head>\n    <title>CCH23 Day 14</title>\n  </head>\n  <body>\n    \
         <h1>Hello!</h1>\n  </body>\n</html>"
    );
}

#[test]
fn template_with_empty_content() {
    let out = render_header_from_template("");
    assert!(out.starts_with("<html>"));
    assert!(out.ends_with("</html>"));
    assert!(out.contains("<body>\n    \n  </body>"));
}
