use vstd::prelude::*;

verus! {

/// The method of an HTTP request, as far as routing tells methods apart.
pub enum RequestMethod {
    Get,
    Post,
    Other,
}

/// What answers a request.
pub enum Route {
    /// The search endpoint: the body is a query.
    Search,
    /// A file of the web interface, with the content type to send it with.
    StaticFile { file_path: String, content_type: String },
    /// Nothing is served at this address.
    NotFound,
}

/// A route as plain values.
pub enum RouteView {
    Search,
    StaticFile { file_path: Seq<char>, content_type: Seq<char> },
    NotFound,
}

impl View for Route {
    type V = RouteView;

    open spec fn view(&self) -> RouteView {
        match self {
            Route::Search => RouteView::Search,
            Route::StaticFile { file_path, content_type } => RouteView::StaticFile {
                file_path: file_path@,
                content_type: content_type@,
            },
            Route::NotFound => RouteView::NotFound,
        }
    }
}

/// Which route answers a request with `method` for `url`: a POST to
/// `/api/search` searches; a GET of `/index.js` or of the page (`/` or
/// `/index.html`) sends that file; anything else is not found.
pub open spec fn route_spec(method: RequestMethod, url: Seq<char>) -> RouteView {
    if method is Post && url == "/api/search"@ {
        RouteView::Search
    } else if method is Get && url == "/index.js"@ {
        RouteView::StaticFile {
            file_path: "index.js"@,
            content_type: "application/javascript; charset=utf-8"@,
        }
    } else if method is Get && (url == "/"@ || url == "/index.html"@) {
        RouteView::StaticFile { file_path: "index.html"@, content_type: "text/html; charset=utf-8"@ }
    } else {
        RouteView::NotFound
    }
}

/// Routes a request.
pub fn route_request(method: RequestMethod, url: &str) -> (r: Route)
    ensures
        r@ == route_spec(method, url@),
{
    let url = url.to_owned();
    match method {
        RequestMethod::Post => {
            if url == "/api/search".to_owned() {
                Route::Search
            } else {
                Route::NotFound
            }
        },
        RequestMethod::Get => {
            if url == "/index.js".to_owned() {
                Route::StaticFile {
                    file_path: "index.js".to_owned(),
                    content_type: "application/javascript; charset=utf-8".to_owned(),
                }
            } else if url == "/".to_owned() || url == "/index.html".to_owned() {
                Route::StaticFile {
                    file_path: "index.html".to_owned(),
                    content_type: "text/html; charset=utf-8".to_owned(),
                }
            } else {
                Route::NotFound
            }
        },
        RequestMethod::Other => Route::NotFound,
    }
}

} // verus!
