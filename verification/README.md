# softwerk_ocr

The verified core of a document OCR pipeline. Pages are rendered from PDFs,
transcribed by a vision-language model, handwritten pages are cut into text
lines for a handwriting model, and the pictures on a page are described by a
second model whose descriptions replace the picture placeholders of the
transcription.

`src/` is the verified library (Verus). It holds the logic of the pipeline:

- `decode`: decoding a page image, in the format that its file extension
  names, into grey scale (through the `image` crate).
- `segmentation`: adaptive thresholding, dilation, row profiles, smoothing
  and the search for text lines of a page image, with the laws that the
  lines found are exactly the maximal runs of ink rows, that a blank page has
  none and that smoothing keeps order.
- `thicken`: making handwriting bolder before recognition.
- `raster`: the grey-scale image type and its mathematical view.
- `placeholders`: finding picture placeholders and their coordinates in a
  transcription.
- `handwriting`: merging placeholders into a handwritten transcription and
  the character counts used to choose the handwriting model.
- `prompt`: the prompt that asks for a picture description.
- `text`: trimming, searching and replacing in text.
- `pages`: choosing and ordering the page images of a directory.
- `tokens`, `tokenize`: the token layout of the transcription prompt (with the
  calls into the tokenizer), decoding steps and how image embeddings are
  spliced into the input.
- `generation`: the greedy generation of the transcription model, step by
  step: which token is fed back, at which cache offset, and when it stops.
- `describe`: describing the pictures of a page one after the other, each
  description taking the place of its placeholder.
- `trocr`: the decisions of the handwriting decoder, step by step.
- `page`, `config`: the data types shared by the stages.

`app/` is the program around it. It lists the page images (rendering PDFs
first when there are none) and cuts each page into text lines, saving them as
PNG files. It also holds the glue for the model stages (image normalisation,
prompt encoding, picking tokens, splicing embeddings, the generation loops
of the transcription and handwriting models, the loop over the pictures of a
page, picture cropping) and the floating-point parts (confidences,
normalisation, scaling of coordinates); building and running the
transcription and description models is not part of it.
