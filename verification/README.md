# tlrl

Sends a web page to a kindle for reading later: the reader service `mercury-parser`
extracts the article, its images are fetched and inlined as grayscale JPEG data URIs,
`<picture>` and `<iframe>` elements are removed, and the article is mailed as an HTML
attachment to the kindle address through gmail.

- `src/` is the verified library (Verus): the document model (`dom`), the HTML
  serializer with kindle's named entities (`serializer`), HTML parsing, the page
  transformation and image encoding (`parser`), the mail's contents (`email`), the configuration
  (`configuration`) and the command line's log filter (`cli`).
- `app/` is the program around it: arguments, the configuration file, running
  `mercury-parser`, fetching images, and sending the mail.
